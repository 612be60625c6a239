//! Narrow-phase tests: for two bodies, the push that separates them.
//!
//! A push points from the first body toward the second.  Moving the first
//! body against it, or the second body along it, takes the two apart.
use crate::circle::CircleObject;
use crate::fixed::{
    absolute, diff, fx_abs, fx_add, fx_div, fx_sub, lemma_hypot_axis, lemma_root_exists,
    lemma_square_monotonic, lemma_square_ordered, lemma_square_smaller, lemma_toward_zero,
    magnitude, ratio, root, sum, tame, toward_zero, LIMIT, MINUS_ONE, ONE,
};
use crate::geometry::{
    circle_shadow, highest, lowest, project_circle, project_point, project_points, projection,
    Rectangle, Vector,
};
use crate::polyhedron::PolyhedronObject;
use crate::rectangle::RectangleObject;
use vstd::prelude::*;

verus! {

/// The depth reported for two intervals of which one lies within the other,
/// or which start or end together: such an axis does not say which way to
/// push.
pub const INDIFFERENT: i64 = 0x7fff_ffff_ffff_ffff;

/// The two intervals `[a.x, a.y]` and `[b.x, b.y]` share no point.
pub open spec fn apart(a: Vector, b: Vector) -> bool {
    a.y < b.x || a.x > b.y
}

/// The signed distance by which interval `b` has entered interval `a`.
///
/// `None` when the intervals are apart.  When `a` lies to the left, the
/// distance from the end of `a` back to the start of `b`, which is not
/// positive; when `a` lies to the right, the distance from the start of `a`
/// on to the end of `b`, which is not negative; and `INDIFFERENT` when
/// neither lies to one side.
pub open spec fn interval_push(a: Vector, b: Vector) -> Option<i64> {
    if apart(a, b) {
        None
    } else if a.y < b.y && a.x < b.x {
        Some(diff(b.x, a.y))
    } else if a.y > b.y && a.x > b.x {
        Some(diff(b.y, a.x))
    } else {
        Some(INDIFFERENT)
    }
}

/// A push turned round.
pub open spec fn reversed(push: Option<Vector>) -> Option<Vector> {
    match push {
        Some(v) => Some(v.scaled(MINUS_ONE)),
        None => None,
    }
}

/// The horizontal extent of a box, as an interval.
pub open spec fn across(r: &Rectangle) -> Vector {
    Vector { x: r.left(), y: r.right() }
}

/// The vertical extent of a box, as an interval.
pub open spec fn down(r: &Rectangle) -> Vector {
    Vector { x: r.top(), y: r.bottom() }
}

/// The push between two boxes: along the axis on which they have entered
/// each other less, and along the vertical one when both depths are equal.
pub open spec fn box_push(a: &Rectangle, b: &Rectangle) -> Option<Vector> {
    match (interval_push(across(b), across(a)), interval_push(down(b), down(a))) {
        (Some(x), Some(y)) => if absolute(x) < absolute(y) {
            Some(Vector { x, y: 0 })
        } else {
            Some(Vector { x: 0, y })
        },
        _ => None,
    }
}

/// The distance between the centers of two discs.
pub open spec fn gap(a: &CircleObject, b: &CircleObject) -> i64 {
    a.center.minus(b.center).len()
}

/// How far two discs have entered each other: the sum of the radii less
/// the distance between the centers.
pub open spec fn depth(a: &CircleObject, b: &CircleObject) -> i64 {
    diff(sum(a.radius, b.radius), gap(a, b))
}

/// The push between two discs that have entered each other: the way from
/// the first center to the second, scaled by the ratio of the depth to the
/// distance.
pub open spec fn circle_push(a: &CircleObject, b: &CircleObject) -> Option<Vector> {
    if depth(a, b) > 0 {
        Some(b.center.minus(a.center).scaled(ratio(depth(a, b), gap(a, b))))
    } else {
        None
    }
}

/// The axis through the center of disc `a`, pointing from the middle of box
/// `b` to that center.
pub open spec fn joining_axis(a: &CircleObject, b: &RectangleObject) -> Rectangle {
    Rectangle { coord: a.center, size: a.center.minus(b.center()).norm() }
}

/// The push between a disc and a box, tested on the horizontal axis, on the
/// vertical axis and on the axis that joins the two centers.  The axis with
/// the least depth gives the push; of equal depths, the joining axis goes
/// before the vertical one, and the vertical one before the horizontal one.
pub open spec fn circle_rect_push(a: &CircleObject, b: &RectangleObject) -> Option<Vector> {
    let x = interval_push(
        across(&b.shape),
        Vector { x: diff(a.center.x, a.radius), y: sum(a.center.x, a.radius) },
    );
    let y = interval_push(
        down(&b.shape),
        Vector { x: diff(a.center.y, a.radius), y: sum(a.center.y, a.radius) },
    );
    let p_line = joining_axis(a, b);
    let p = interval_push(
        Vector { x: lowest(&p_line, b.shape.corners()), y: highest(&p_line, b.shape.corners()) },
        circle_shadow(&p_line, a.center, a.radius),
    );
    match (x, y, p) {
        (Some(x), Some(y), Some(p)) => if absolute(x) < absolute(y) {
            if absolute(x) < absolute(p) {
                Some(Vector { x, y: 0 })
            } else {
                Some(p_line.size.scaled(p))
            }
        } else if absolute(y) < absolute(p) {
            Some(Vector { x: 0, y })
        } else {
            Some(p_line.size.scaled(p))
        },
        _ => None,
    }
}

/// What a separating-axis test compares: a polygon by its vertices, or a
/// disc.
pub enum Shape {
    Polygon(Seq<Vector>),
    Disc(Vector, i64),
}

impl Shape {
    /// The interval that the shape covers on the axis `line`.
    pub open spec fn shadow(self, line: &Rectangle) -> Vector {
        match self {
            Shape::Polygon(points) => Vector {
                x: lowest(line, points),
                y: highest(line, points),
            },
            Shape::Disc(center, radius) => circle_shadow(line, center, radius),
        }
    }
}

/// The depth found on the axis `line`: how far the shadow of `a` has entered
/// the shadow of `b`.
pub open spec fn reading(line: &Rectangle, a: Shape, b: Shape) -> Option<i64> {
    interval_push(b.shadow(line), a.shadow(line))
}

/// The state of a separating-axis search after the axes `lines`, taken in
/// order: `None` once an axis shows the shapes apart; else the least depth
/// so far, `INDIFFERENT` at the start, and the push of the first axis that
/// reached it, if any axis went below `INDIFFERENT`.
pub open spec fn search(lines: Seq<Rectangle>, a: Shape, b: Shape) -> Option<(i64, Option<Vector>)>
    decreases lines.len(),
{
    if lines.len() == 0 {
        Some((INDIFFERENT, None))
    } else {
        match (search(lines.drop_last(), a, b), reading(&lines.last(), a, b)) {
            (Some((min, res)), Some(c)) => if absolute(c) < min {
                Some((absolute(c), Some(lines.last().size.scaled(c))))
            } else {
                Some((min, res))
            },
            _ => None,
        }
    }
}

/// The push between two shapes by a separating-axis search over `lines`.
pub open spec fn separation(lines: Seq<Rectangle>, a: Shape, b: Shape) -> Option<Vector> {
    match search(lines, a, b) {
        Some((_, res)) => res,
        None => None,
    }
}

/// An axis that shows the shapes apart ends the search, whatever follows.
pub proof fn lemma_search_apart(lines: Seq<Rectangle>, a: Shape, b: Shape, k: int)
    requires
        0 <= k <= lines.len(),
        search(lines.take(k), a, b) is None,
    ensures
        search(lines, a, b) is None,
    decreases lines.len() - k,
{
    if k < lines.len() {
        assert(lines.take(k + 1).drop_last() =~= lines.take(k));
        lemma_search_apart(lines, a, b, k + 1);
    } else {
        assert(lines.take(k) =~= lines);
    }
}

/// The depth that axis `i` of `lines` reports for shapes that it does not
/// show apart.
pub open spec fn depth_on(lines: Seq<Rectangle>, a: Shape, b: Shape, i: int) -> i64 {
    absolute(reading(&lines[i], a, b)->0)
}

/// Axis `k` is the first of `lines` whose depth is `min`, and no earlier
/// axis reports less.
pub open spec fn first_with_depth(lines: Seq<Rectangle>, a: Shape, b: Shape, k: int, min: i64)
    -> bool {
    &&& 0 <= k < lines.len()
    &&& depth_on(lines, a, b, k) == min
    &&& forall|j: int| 0 <= j < k ==> min < #[trigger] depth_on(lines, a, b, j)
}

/// A search finds the shapes apart exactly if some axis shows them apart.
pub proof fn lemma_search_none(lines: Seq<Rectangle>, a: Shape, b: Shape)
    ensures
        search(lines, a, b) is None <==> exists|i: int|
            0 <= i < lines.len() && #[trigger] reading(&lines[i], a, b) is None,
    decreases lines.len(),
{
    if lines.len() > 0 {
        let init = lines.drop_last();
        let n = lines.len() - 1;
        lemma_search_none(init, a, b);
        if search(init, a, b) is None {
            let i = choose|i: int|
                0 <= i < init.len() && #[trigger] reading(&init[i], a, b) is None;
            assert(reading(&lines[i], a, b) is None);
        } else if reading(&lines[n], a, b) is Some {
            assert forall|i: int| 0 <= i < lines.len() implies !(#[trigger] reading(
                &lines[i],
                a,
                b,
            ) is None) by {
                if i < n {
                    assert(reading(&init[i], a, b) is Some);
                }
            }
        }
    }
}

/// The depth that a separating-axis search ends with is the least that any
/// axis reports, and the search finds no push exactly if that depth is
/// `INDIFFERENT`.
pub proof fn lemma_search_depth(lines: Seq<Rectangle>, a: Shape, b: Shape)
    requires
        search(lines, a, b) is Some,
    ensures
        forall|i: int|
            0 <= i < lines.len() ==> (search(lines, a, b)->0).0 <= #[trigger] depth_on(
                lines,
                a,
                b,
                i,
            ),
        (search(lines, a, b)->0).1 is None <==> (search(lines, a, b)->0).0 == INDIFFERENT,
        (search(lines, a, b)->0).0 >= 0,
    decreases lines.len(),
{
    if lines.len() > 0 {
        let init = lines.drop_last();
        let n = lines.len() - 1;
        lemma_search_depth(init, a, b);
        let min0 = (search(init, a, b)->0).0;
        let min = (search(lines, a, b)->0).0;
        assert(min <= min0);
        assert(min <= depth_on(lines, a, b, n));
        assert forall|i: int| 0 <= i < lines.len() implies min <= #[trigger] depth_on(
            lines,
            a,
            b,
            i,
        ) by {
            if i < n {
                assert(init[i] == lines[i]);
                assert(depth_on(init, a, b, i) == depth_on(lines, a, b, i));
            }
        }
    }
}

/// The push that a separating-axis search finds lies along the first axis
/// of least depth and has that depth.
pub proof fn lemma_separation_least(lines: Seq<Rectangle>, a: Shape, b: Shape) -> (k: int)
    requires
        separation(lines, a, b) is Some,
    ensures
        first_with_depth(lines, a, b, k, (search(lines, a, b)->0).0),
        separation(lines, a, b) == Some(lines[k].size.scaled(reading(&lines[k], a, b)->0)),
    decreases lines.len(),
{
    let init = lines.drop_last();
    let n = lines.len() - 1;
    let (min0, res0) = search(init, a, b)->0;
    let min = (search(lines, a, b)->0).0;
    let c = reading(&lines[n], a, b)->0;
    lemma_search_depth(init, a, b);
    if absolute(c) < min0 {
        assert forall|j: int| 0 <= j < n implies min < #[trigger] depth_on(lines, a, b, j) by {
            assert(init[j] == lines[j]);
            assert(depth_on(init, a, b, j) == depth_on(lines, a, b, j));
        }
        n
    } else {
        let k = lemma_separation_least(init, a, b);
        assert(init[k] == lines[k]);
        assert(depth_on(init, a, b, k) == depth_on(lines, a, b, k));
        assert forall|j: int| 0 <= j < k implies min < #[trigger] depth_on(lines, a, b, j) by {
            assert(init[j] == lines[j]);
            assert(depth_on(init, a, b, j) == depth_on(lines, a, b, j));
        }
        k
    }
}

/// The horizontal axis through the corner of box `b`.
pub open spec fn level_axis(b: &RectangleObject) -> Rectangle {
    Rectangle { coord: b.shape.coord, size: Vector { x: ONE, y: 0 } }
}

/// The vertical axis through the corner of box `b`.
pub open spec fn plumb_axis(b: &RectangleObject) -> Rectangle {
    Rectangle { coord: b.shape.coord, size: Vector { x: 0, y: ONE } }
}

/// The axis through the center of polygon `a`, pointing to the center of
/// disc `b`.
pub open spec fn toward_axis(a: &PolyhedronObject, b: &CircleObject) -> Rectangle {
    Rectangle { coord: a.center, size: b.center.minus(a.center).norm() }
}

/// The push between a polygon and a box: a search over the edge axes of the
/// polygon, then the horizontal and the vertical axis.
pub open spec fn poly_rect_push(a: &PolyhedronObject, b: &RectangleObject) -> Option<Vector> {
    separation(
        a.edge_axes().push(level_axis(b)).push(plumb_axis(b)),
        Shape::Polygon(a.vertices()),
        Shape::Polygon(b.shape.corners()),
    )
}

/// The push between a polygon and a disc: a search over the edge axes of the
/// polygon, then the axis from the polygon's center to the disc's.
pub open spec fn poly_circle_push(a: &PolyhedronObject, b: &CircleObject) -> Option<Vector> {
    separation(
        a.edge_axes().push(toward_axis(a, b)),
        Shape::Polygon(a.vertices()),
        Shape::Disc(b.center, b.radius),
    )
}

/// The push between two polygons: a search over the edge axes of the first,
/// then those of the second.
pub open spec fn poly_poly_push(a: &PolyhedronObject, b: &PolyhedronObject) -> Option<Vector> {
    separation(
        a.edge_axes() + b.edge_axes(),
        Shape::Polygon(a.vertices()),
        Shape::Polygon(b.vertices()),
    )
}

/// A shape as a separating-axis search holds it.
pub enum Outline {
    Polygon(Vec<Vector>),
    Disc(Vector, i64),
}

impl View for Outline {
    type V = Shape;

    open spec fn view(&self) -> Shape {
        match self {
            Outline::Polygon(points) => Shape::Polygon(points@),
            Outline::Disc(center, radius) => Shape::Disc(*center, *radius),
        }
    }
}

impl Outline {
    /// The interval that the shape covers on the axis `line`.
    pub fn project(&self, line: &Rectangle) -> (r: Vector)
        ensures
            r == self@.shadow(line),
    {
        match self {
            Outline::Polygon(points) => project_points(line, points.as_slice()),
            Outline::Disc(center, radius) => project_circle(line, *center, *radius),
        }
    }
}

/// Searches the axes `lines`, in order, for the push between `a` and `b`.
///
/// The first axis on which the shadows of the two shapes are apart ends the
/// search with `None`.  Otherwise the push lies along the first axis of
/// least depth, and has that depth.
pub fn separate(lines: &Vec<Rectangle>, a: &Outline, b: &Outline) -> (r: Option<Vector>)
    ensures
        r == separation(lines@, a@, b@),
{
    let mut min: i64 = INDIFFERENT;
    let mut res: Option<Vector> = None;
    let mut i: usize = 0;
    while i < lines.len()
        invariant
            i <= lines.len(),
            search(lines@.take(i as int), a@, b@) == Some((min, res)),
        decreases lines.len() - i,
    {
        let line = lines[i];
        let a_proj = a.project(&line);
        let b_proj = b.project(&line);
        proof {
            let next = lines@.take(i + 1);
            assert(next.drop_last() =~= lines@.take(i as int));
            assert(next.last() == line);
        }
        match one_dimensional_collision(b_proj, a_proj) {
            None => {
                proof {
                    lemma_search_apart(lines@, a@, b@, i + 1);
                }
                return None;
            },
            Some(c) => {
                if fx_abs(c) < min {
                    min = fx_abs(c);
                    res = Some(line.size * c);
                }
            },
        }
        i = i + 1;
    }
    assert(lines@.take(i as int) =~= lines@);
    res
}

/// The push between two rectangular bodies.
pub fn collide_rect_rect(a: &RectangleObject, b: &RectangleObject) -> (r: Option<Vector>)
    ensures
        r == box_push(&a.shape, &b.shape),
{
    collide_aabb_aabb(&a.aabb(), &b.aabb())
}

/// The push between two discs; `None` unless they have entered each other.
pub fn collide_cirle_circle(a: &CircleObject, b: &CircleObject) -> (r: Option<Vector>)
    ensures
        r == circle_push(a, b),
        r is Some <==> gap(a, b) < sum(a.radius, b.radius),
{
    let d: i64 = (a.center - b.center).len();
    let shift_len: i64 = fx_sub(fx_add(a.radius, b.radius), d);
    if shift_len > 0 {
        return Some((b.center - a.center) * fx_div(shift_len, d));
    }
    None
}

/// The push between a disc and a rectangular body.
pub fn collide_circle_rect(a: &CircleObject, b: &RectangleObject) -> (r: Option<Vector>)
    ensures
        r == circle_rect_push(a, b),
{
    let x = one_dimensional_collision(
        Vector::new(b.left(), b.right()),
        Vector::new(fx_sub(a.center.x, a.radius), fx_add(a.center.x, a.radius)),
    );

    let y = one_dimensional_collision(
        Vector::new(b.top(), b.bottom()),
        Vector::new(fx_sub(a.center.y, a.radius), fx_add(a.center.y, a.radius)),
    );

    let p_line = Rectangle::new_vec(a.center, (a.center - b.center()).norm());
    let projected_circle: i64 = project_point(&p_line, a.center);
    let corners = b.shape.points();
    let p = one_dimensional_collision(
        project_points(&p_line, corners.as_slice()),
        Vector::new(fx_sub(projected_circle, a.radius), fx_add(projected_circle, a.radius)),
    );

    match (x, y, p) {
        (Some(x), Some(y), Some(p)) => {
            let some = if fx_abs(x) < fx_abs(y) {
                if fx_abs(x) < fx_abs(p) {
                    Vector::new(x, 0)
                } else {
                    p_line.size * p
                }
            } else if fx_abs(y) < fx_abs(p) {
                Vector::new(0, y)
            } else {
                p_line.size * p
            };
            Some(some)
        },
        _ => None,
    }
}

/// The push between a polygon and a rectangular body.
pub fn collide_poly_rect(a: &PolyhedronObject, b: &RectangleObject) -> (r: Option<Vector>)
    ensures
        r == poly_rect_push(a, b),
{
    let rect_line_x = Rectangle::new_vec(b.shape.coord, Vector::new(ONE, 0));
    let rect_line_y = Rectangle::new_vec(b.shape.coord, Vector::new(0, ONE));
    let mut lines = a.lines();
    lines.push(rect_line_x);
    lines.push(rect_line_y);
    separate(&lines, &Outline::Polygon(a.points()), &Outline::Polygon(b.shape.points()))
}

/// The push between a polygon and a disc.
pub fn collide_poly_circle(a: &PolyhedronObject, b: &CircleObject) -> (r: Option<Vector>)
    ensures
        r == poly_circle_push(a, b),
{
    let circle_line = Rectangle::new_vec(a.center, (b.center - a.center).norm());
    let mut lines = a.lines();
    lines.push(circle_line);
    separate(&lines, &Outline::Polygon(a.points()), &Outline::Disc(b.center, b.radius))
}

/// The push between two polygons.
pub fn collide_poly_poly(a: &PolyhedronObject, b: &PolyhedronObject) -> (r: Option<Vector>)
    ensures
        r == poly_poly_push(a, b),
{
    let mut lines = a.lines();
    let mut more = b.lines();
    lines.append(&mut more);
    separate(&lines, &Outline::Polygon(a.points()), &Outline::Polygon(b.points()))
}

/// The signed distance by which interval `b` has entered interval `a`;
/// `None` when the two are apart.
pub fn one_dimensional_collision(a: Vector, b: Vector) -> (r: Option<i64>)
    ensures
        r == interval_push(a, b),
        r is None <==> apart(a, b),
{
    if a.y < b.x || a.x > b.y {
        return None;
    }
    if a.y < b.y && a.x < b.x {
        return Some(fx_sub(b.x, a.y));
    }
    if a.y > b.y && a.x > b.x {
        return Some(fx_sub(b.y, a.x));
    }
    Some(INDIFFERENT)
}

/// The push between two boxes.
///
/// There is one exactly if the boxes overlap, and its length is the lesser
/// of the depths on the two axes.
pub fn collide_aabb_aabb(a: &Rectangle, b: &Rectangle) -> (r: Option<Vector>)
    ensures
        r == box_push(a, b),
        r is Some <==> a.overlaps(b),
        r matches Some(v) ==> {
            let x = interval_push(across(b), across(a))->0;
            let y = interval_push(down(b), down(a))->0;
            &&& absolute(x) < absolute(y) ==> v.y == 0 && v.x == x && v.len() == absolute(x)
            &&& absolute(x) >= absolute(y) ==> v.x == 0 && v.y == y && v.len() == absolute(y)
        },
{
    proof {
        match (interval_push(across(b), across(a)), interval_push(down(b), down(a))) {
            (Some(x), Some(y)) => {
                lemma_hypot_axis(x);
                lemma_hypot_axis(y);
            },
            _ => {},
        }
    }
    let x = one_dimensional_collision(
        Vector::new(b.left(), b.right()),
        Vector::new(a.left(), a.right()),
    );
    let y = one_dimensional_collision(
        Vector::new(b.top(), b.bottom()),
        Vector::new(a.top(), a.bottom()),
    );
    match (x, y) {
        (Some(x), Some(y)) => {
            if fx_abs(x) < fx_abs(y) {
                Some(Vector::new(x, 0))
            } else {
                Some(Vector::new(0, y))
            }
        },
        _ => None,
    }
}

/// A push between two boxes takes them apart exactly as far as they touch.
///
/// For two boxes within `LIMIT` and a push whose depth is not
/// `INDIFFERENT`, the first box, moved against the push, lies against the
/// second one: along the axis of the push, one box ends where the other
/// begins.
pub proof fn lemma_box_push_parts(a: &Rectangle, b: &Rectangle)
    requires
        tame(a.coord.x) && tame(a.coord.y) && tame(a.size.x) && tame(a.size.y),
        tame(b.coord.x) && tame(b.coord.y) && tame(b.size.x) && tame(b.size.y),
        box_push(a, b) is Some,
        box_push(a, b)->0.x != INDIFFERENT,
        box_push(a, b)->0.y != INDIFFERENT,
    ensures
        ({
            let x = interval_push(across(b), across(a))->0;
            let y = interval_push(down(b), down(a))->0;
            let v = box_push(a, b)->0;
            let moved = Rectangle { coord: a.coord.minus(v), size: a.size };
            &&& absolute(x) < absolute(y) ==> moved.left() == b.right() || moved.right()
                == b.left()
            &&& absolute(x) >= absolute(y) ==> moved.top() == b.bottom() || moved.bottom()
                == b.top()
        }),
{
}

/// The square of a product is the product of the squares.
proof fn lemma_squared_product(a: int, k: int)
    ensures
        (a * k) * (a * k) == (a * a) * (k * k),
{
    assert((a * k) * (a * k) == (a * a) * (k * k)) by (nonlinear_arith);
}

/// The push between two discs points from the first center toward the
/// second and is as long as the discs have entered each other, up to
/// rounding.
///
/// For two discs within `LIMIT` whose centers differ, and whose depth
/// divided by their distance is representable, each coordinate of the push
/// is zero or has the sign of the way from the first center to the second,
/// the push leaves the line along that way by less than `|x| + |y|` of the
/// way in raw area, and its length is less than the depth times
/// `1 + 1 / distance`, and more than the depth less three raw units and
/// the distance divided by `ONE`.
pub proof fn lemma_circle_push(a: &CircleObject, b: &CircleObject)
    requires
        tame(a.center.x) && tame(a.center.y) && tame(a.radius),
        tame(b.center.x) && tame(b.center.y) && tame(b.radius),
        a.center != b.center,
        depth(a, b) > 0,
        depth(a, b) * ONE <= i64::MAX * gap(a, b),
    ensures
        circle_push(a, b) is Some,
        ({
            let v = circle_push(a, b)->0;
            let toward = b.center.minus(a.center);
            &&& v.x == 0 || (v.x > 0 <==> toward.x > 0)
            &&& v.y == 0 || (v.y > 0 <==> toward.y > 0)
            &&& magnitude(v.x * toward.y - v.y * toward.x) <= magnitude(toward.x as int)
                + magnitude(toward.y as int)
            &&& v.len() * gap(a, b) < depth(a, b) * (gap(a, b) + 1)
            &&& (v.len() + 3) * ONE + gap(a, b) > depth(a, b) * ONE
        }),
{
    let one = ONE as int;
    let dx: int = b.center.x - a.center.x;
    let dy: int = b.center.y - a.center.y;
    let toward = b.center.minus(a.center);
    let back = a.center.minus(b.center);
    assert(toward.x == dx && toward.y == dy);
    assert(back.x == -dx && back.y == -dy);
    let ax = magnitude(dx);
    let ay = magnitude(dy);
    let dd = dx * dx + dy * dy;
    assert(back.x * back.x == dx * dx && back.y * back.y == dy * dy && ax * ax == dx * dx && ay
        * ay == dy * dy) by (nonlinear_arith)
        requires
            back.x == -dx,
            back.y == -dy,
            ax == dx || ax == -dx,
            ay == dy || ay == -dy,
    ;
    lemma_square_ordered(ax, 2 * LIMIT);
    lemma_square_ordered(ay, 2 * LIMIT);
    assert(dd >= 1) by (nonlinear_arith)
        requires
            dd == dx * dx + dy * dy,
            dx != 0 || dy != 0,
    ;
    lemma_root_exists(dd);
    let d = root(dd);
    if d >= 4 * LIMIT {
        lemma_square_ordered(4 * LIMIT, d);
    }
    if d < 1 {
        assert((d + 1) * (d + 1) == 1);
    }
    assert(gap(a, b) == d);
    let s: int = a.radius + b.radius - d;
    assert(depth(a, b) == s);

    // The ratio of the depth to the distance.
    let q = (s * one) / d;
    vstd::arithmetic::div_mod::lemma_fundamental_div_mod(s * one, d);
    vstd::arithmetic::div_mod::lemma_mod_pos_bound(s * one, d);
    assert(q * d <= s * one < (q + 1) * d) by (nonlinear_arith)
        requires
            s * one == d * q + (s * one) % d,
            0 <= (s * one) % d < d,
    ;
    assert(0 <= q <= i64::MAX) by (nonlinear_arith)
        requires
            q * d <= s * one < (q + 1) * d,
            s * one <= i64::MAX * d,
            s > 0,
            one > 0,
            d >= 1,
    ;
    assert(ratio(depth(a, b), gap(a, b)) == q);

    // Each coordinate of the way is at most the distance.
    assert(ax * ax <= dd && ay * ay <= dd) by (nonlinear_arith)
        requires
            dd == dx * dx + dy * dy,
            ax * ax == dx * dx,
            ay * ay == dy * dy,
    ;
    lemma_square_smaller(ax, d + 1);
    lemma_square_smaller(ay, d + 1);

    // The two coordinates of the push.
    let tx = toward_zero(dx * q, one);
    let ty = toward_zero(dy * q, one);
    lemma_toward_zero(dx * q, one);
    lemma_toward_zero(dy * q, one);
    let mx = magnitude(tx);
    let my = magnitude(ty);
    assert(magnitude(dx * q) == ax * q && magnitude(dy * q) == ay * q && (dx > 0 ==> dx * q >= 0)
        && (dx < 0 ==> dx * q <= 0) && (dy > 0 ==> dy * q >= 0) && (dy < 0 ==> dy * q <= 0)
        && (dx == 0 ==> dx * q == 0) && (dy == 0 ==> dy * q == 0)) by (nonlinear_arith)
        requires
            q >= 0,
            ax == magnitude(dx),
            ay == magnitude(dy),
    ;
    assert(mx <= s && my <= s) by (nonlinear_arith)
        requires
            mx * one <= ax * q,
            my * one <= ay * q,
            0 <= ax <= d,
            0 <= ay <= d,
            q * d <= s * one,
            q >= 0,
            one > 0,
    ;
    let v = circle_push(a, b)->0;
    assert(v.x == tx && v.y == ty);

    // The push lies along the way.
    let rx = dx * q - tx * one;
    let ry = dy * q - ty * one;
    assert(magnitude(rx) < one && magnitude(ry) < one);
    assert((tx * dy - ty * dx) * one == ry * dx - rx * dy) by (nonlinear_arith)
        requires
            rx == dx * q - tx * one,
            ry == dy * q - ty * one,
    ;
    assert(magnitude(ry * dx - rx * dy) <= magnitude(ry) * ax + magnitude(rx) * ay)
        by (nonlinear_arith)
        requires
            ax == magnitude(dx),
            ay == magnitude(dy),
    ;
    assert(magnitude(tx * dy - ty * dx) <= ax + ay) by (nonlinear_arith)
        requires
            (tx * dy - ty * dx) * one == ry * dx - rx * dy,
            magnitude(ry * dx - rx * dy) <= magnitude(ry) * ax + magnitude(rx) * ay,
            0 <= magnitude(rx) < one,
            0 <= magnitude(ry) < one,
            ax >= 0,
            ay >= 0,
            one > 0,
    ;

    // The length of the push.
    let vv = tx * tx + ty * ty;
    assert(vv == mx * mx + my * my) by (nonlinear_arith)
        requires
            vv == tx * tx + ty * ty,
            mx == tx || mx == -tx,
            my == ty || my == -ty,
    ;
    lemma_root_exists(vv);
    let len = root(vv);
    lemma_square_ordered(mx, s);
    lemma_square_ordered(my, s);
    if len > 2 * s {
        lemma_square_ordered(2 * s, len);
        assert(false) by (nonlinear_arith)
            requires
                (2 * s) * (2 * s) <= len * len,
                len * len <= vv,
                vv == mx * mx + my * my,
                mx * mx <= s * s,
                my * my <= s * s,
                s > 0,
        ;
    }
    assert(v.len() == len);

    // Not longer than the depth times 1 + 1 / distance.
    lemma_square_ordered(mx * one, ax * q);
    lemma_square_ordered(my * one, ay * q);
    lemma_square_ordered(q * d, s * one);
    assert(len * d < s * (d + 1)) by {
        let l2 = len * len;
        let o2 = one * one;
        let d2 = d * d;
        let q2 = q * q;
        let s2 = s * s;
        let e2 = (d + 1) * (d + 1);
        lemma_squared_product(mx, one);
        lemma_squared_product(my, one);
        lemma_squared_product(ax, q);
        lemma_squared_product(ay, q);
        lemma_squared_product(q, d);
        lemma_squared_product(s, one);
        lemma_squared_product(len, d);
        lemma_squared_product(s, d + 1);
        assert(vv * o2 == (mx * mx) * o2 + (my * my) * o2) by (nonlinear_arith)
            requires
                vv == mx * mx + my * my,
        ;
        assert(dd * q2 == (ax * ax) * q2 + (ay * ay) * q2) by (nonlinear_arith)
            requires
                dd == ax * ax + ay * ay,
        ;
        assert(vv * o2 <= dd * q2);
        assert(l2 * o2 <= vv * o2) by (nonlinear_arith)
            requires
                l2 <= vv,
                o2 >= 0,
        ;
        assert(q2 * d2 <= s2 * o2);
        assert((l2 * o2) * d2 <= (dd * q2) * d2) by (nonlinear_arith)
            requires
                l2 * o2 <= dd * q2,
                d2 >= 0,
        ;
        assert((dd * q2) * d2 == dd * (q2 * d2)) by (nonlinear_arith);
        assert(dd * (q2 * d2) <= dd * (s2 * o2)) by (nonlinear_arith)
            requires
                q2 * d2 <= s2 * o2,
                dd >= 0,
        ;
        assert(s2 * o2 > 0) by (nonlinear_arith)
            requires
                s2 == s * s,
                o2 == one * one,
                s > 0,
                one > 0,
        ;
        assert(dd * (s2 * o2) < e2 * (s2 * o2)) by (nonlinear_arith)
            requires
                dd < e2,
                s2 * o2 > 0,
        ;
        assert((l2 * d2) * o2 == (l2 * o2) * d2 && (e2 * s2) * o2 == e2 * (s2 * o2))
            by (nonlinear_arith);
        assert(l2 * d2 < e2 * s2) by (nonlinear_arith)
            requires
                (l2 * d2) * o2 < (e2 * s2) * o2,
                o2 > 0,
        ;
        assert((s * (d + 1)) * (s * (d + 1)) == e2 * s2) by (nonlinear_arith)
            requires
                (s * (d + 1)) * (s * (d + 1)) == (s * s) * ((d + 1) * (d + 1)),
                e2 == (d + 1) * (d + 1),
                s2 == s * s,
        ;
        assert(len * d >= 0 && s * (d + 1) >= 0) by (nonlinear_arith)
            requires
                len >= 0,
                d >= 1,
                s > 0,
        ;
        lemma_square_smaller(len * d, s * (d + 1));
    }

    // Not shorter than the depth, less three raw units and a share of the
    // distance.
    assert((len + 3) * one + d > s * one) by {
        if (len + 3) * one + d <= s * one {
            let w = s * one - d;
            assert(mx <= len && my <= len) by {
                assert(mx * mx <= vv && my * my <= vv) by (nonlinear_arith)
                    requires
                        vv == mx * mx + my * my,
                ;
                lemma_square_smaller(mx, len + 1);
                lemma_square_smaller(my, len + 1);
            }
            assert((mx + 1) * (mx + 1) + (my + 1) * (my + 1) <= (len + 3) * (len + 3))
                by (nonlinear_arith)
                requires
                    vv == mx * mx + my * my,
                    vv < (len + 1) * (len + 1),
                    0 <= mx <= len,
                    0 <= my <= len,
            ;
            assert(w < q * d && w >= 0) by (nonlinear_arith)
                requires
                    w == s * one - d,
                    s * one < (q + 1) * d,
                    (len + 3) * one + d <= s * one,
                    len >= 0,
                    one > 0,
            ;
            lemma_square_monotonic(w, q * d);
            lemma_square_ordered((len + 3) * one, w);
            assert(((mx + 1) * one) * ((mx + 1) * one) + ((my + 1) * one) * ((my + 1) * one) > dd
                * (q * q)) by {
                lemma_square_monotonic(ax * q, (mx + 1) * one);
                lemma_square_monotonic(ay * q, (my + 1) * one);
                assert(dd * (q * q) == (ax * q) * (ax * q) + (ay * q) * (ay * q))
                    by (nonlinear_arith)
                    requires
                        dd == ax * ax + ay * ay,
                ;
            }
            assert(dd * (q * q) >= (q * d) * (q * d)) by (nonlinear_arith)
                requires
                    d * d <= dd,
            ;
            assert(false) by (nonlinear_arith)
                requires
                    ((mx + 1) * one) * ((mx + 1) * one) + ((my + 1) * one) * ((my + 1) * one)
                        > dd * (q * q),
                    dd * (q * q) >= (q * d) * (q * d),
                    w * w < (q * d) * (q * d),
                    ((len + 3) * one) * ((len + 3) * one) <= w * w,
                    (mx + 1) * (mx + 1) + (my + 1) * (my + 1) <= (len + 3) * (len + 3),
                    one > 0,
            ;
        }
    }
}

} // verus!
