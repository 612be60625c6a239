use collide2d::circle::CircleObject;
use collide2d::fixed::ONE;
use collide2d::geometry::{Rectangle, Vector};
use collide2d::object::MetaObject;
use collide2d::polyhedron::PolyhedronObject;
use collide2d::rectangle::RectangleObject;

fn fx(v: f64) -> i64 {
    (v * 4294967296.0).round() as i64
}

fn vector(x: f64, y: f64) -> Vector {
    Vector::new(fx(x), fx(y))
}

fn pair(v: Vector) -> (i64, i64) {
    (v.x, v.y)
}

fn sides(r: Rectangle) -> (i64, i64, i64, i64) {
    (r.left(), r.top(), r.right(), r.bottom())
}

fn diamond() -> PolyhedronObject {
    PolyhedronObject::new(
        vector(100.0, 50.0),
        vec![vector(0.0, -10.0), vector(20.0, 0.0), vector(0.0, 10.0), vector(-20.0, 0.0)],
        vector(1.0, 2.0),
    )
}

#[test]
fn circle_travels_moves_and_is_kicked() {
    let mut c = CircleObject::new(vector(10.0, 20.0), fx(5.0), vector(2.0, -4.0));
    c.tick(fx(0.5));
    assert_eq!(pair(c.center), (fx(11.0), fx(18.0)));
    c.mov(vector(-1.0, 2.0));
    assert_eq!(pair(c.center), (fx(10.0), fx(20.0)));
    c.kick(vector(1.0, 1.0));
    assert_eq!(pair(c.speed()), (fx(3.0), fx(-3.0)));
    assert_eq!(c.radius, fx(5.0));
}

#[test]
fn circle_box_is_the_square_around_it() {
    let c = CircleObject::new(vector(10.0, 20.0), fx(5.0), Vector::zero());
    assert_eq!(sides(c.aabb()), (fx(5.0), fx(15.0), fx(15.0), fx(25.0)));
}

#[test]
fn rectangle_travels_moves_and_is_kicked() {
    let mut r = RectangleObject::new(fx(10.0), fx(20.0), fx(30.0), fx(40.0), vector(2.0, -4.0));
    r.tick(fx(0.5));
    assert_eq!(sides(r.aabb()), (fx(11.0), fx(18.0), fx(41.0), fx(58.0)));
    r.mov(vector(-1.0, 2.0));
    assert_eq!(
        (r.left(), r.top(), r.right(), r.bottom()),
        (fx(10.0), fx(20.0), fx(40.0), fx(60.0))
    );
    r.kick(vector(1.0, 1.0));
    assert_eq!(pair(r.speed()), (fx(3.0), fx(-3.0)));
    assert_eq!(pair(r.center()), (fx(25.0), fx(40.0)));
}

#[test]
fn immovable_rectangle_ignores_travel_move_and_kick() {
    let mut wall = match RectangleObject::new_obj_immovable(
        fx(10.0),
        fx(20.0),
        fx(30.0),
        fx(40.0),
        vector(2.0, -4.0),
    ) {
        MetaObject::Rect(r) => r,
        _ => panic!("not a rectangle"),
    };
    assert!(wall.immovable);
    wall.tick(fx(0.5));
    wall.mov(vector(-1.0, 2.0));
    wall.kick(vector(1.0, 1.0));
    assert_eq!(sides(wall.aabb()), (fx(10.0), fx(20.0), fx(40.0), fx(60.0)));
    assert_eq!(pair(wall.speed()), (fx(2.0), fx(-4.0)));
}

#[test]
fn movable_rectangle_is_not_immovable() {
    match RectangleObject::new_obj(fx(1.0), fx(2.0), fx(3.0), fx(4.0), Vector::zero()) {
        MetaObject::Rect(r) => assert!(!r.immovable),
        _ => panic!("not a rectangle"),
    }
}

#[test]
fn polygon_keeps_the_frame_of_its_offsets() {
    let p = diamond();
    assert_eq!(pair(p.aabb.coord), (fx(-20.0), fx(-10.0)));
    assert_eq!(pair(p.aabb.size), (fx(40.0), fx(20.0)));
    assert_eq!(sides(p.aabb()), (fx(80.0), fx(40.0), fx(120.0), fx(60.0)));
    assert_eq!(p.points_len(), 4);
}

#[test]
fn polygon_without_vertices_has_the_empty_frame() {
    let p = PolyhedronObject::new(vector(1.0, 1.0), Vec::new(), Vector::zero());
    assert_eq!(pair(p.aabb.coord), (i64::MAX, i64::MAX));
    assert_eq!(pair(p.aabb.size), (i64::MIN, i64::MIN));
    assert_eq!(p.points_len(), 0);
    assert!(p.points().is_empty());
    assert!(p.lines().is_empty());
}

#[test]
fn polygon_vertices_are_offsets_from_the_center() {
    let p = diamond();
    let vertices: Vec<(i64, i64)> = p.points().iter().map(|v| pair(*v)).collect();
    assert_eq!(
        vertices,
        vec![
            (fx(100.0), fx(40.0)),
            (fx(120.0), fx(50.0)),
            (fx(100.0), fx(60.0)),
            (fx(80.0), fx(50.0)),
        ]
    );
}

#[test]
fn polygon_axes_start_at_the_vertices_and_point_across_the_edges() {
    let p = PolyhedronObject::new(
        vector(10.0, 10.0),
        vec![vector(-1.0, -1.0), vector(1.0, -1.0), vector(1.0, 1.0), vector(-1.0, 1.0)],
        Vector::zero(),
    );
    let lines: Vec<((i64, i64), (i64, i64))> =
        p.lines().iter().map(|l| (pair(l.coord), pair(l.size))).collect();
    assert_eq!(
        lines,
        vec![
            ((fx(9.0), fx(9.0)), (0, -ONE)),
            ((fx(11.0), fx(9.0)), (ONE, 0)),
            ((fx(11.0), fx(11.0)), (0, ONE)),
            ((fx(9.0), fx(11.0)), (-ONE, 0)),
        ]
    );
}

#[test]
fn polygon_travels_moves_and_is_kicked_without_turning() {
    let mut p = diamond();
    let offsets: Vec<(i64, i64)> = p.points.iter().map(|v| pair(*v)).collect();
    p.tick(fx(2.0));
    assert_eq!(pair(p.center), (fx(102.0), fx(54.0)));
    p.mov(vector(-2.0, -4.0));
    assert_eq!(pair(p.center), (fx(100.0), fx(50.0)));
    p.kick(vector(1.0, 1.0));
    assert_eq!(pair(p.speed()), (fx(2.0), fx(3.0)));
    let after: Vec<(i64, i64)> = p.points.iter().map(|v| pair(*v)).collect();
    assert_eq!(offsets, after);
    assert_eq!(sides(p.aabb()), (fx(80.0), fx(40.0), fx(120.0), fx(60.0)));
}

#[test]
fn body_of_any_kind_answers_as_its_kind() {
    let mut bodies = vec![
        RectangleObject::new_obj(fx(10.0), fx(20.0), fx(30.0), fx(40.0), vector(2.0, -4.0)),
        CircleObject::new_obj(vector(10.0, 20.0), fx(5.0), vector(2.0, -4.0)),
        PolyhedronObject::new_obj(
            vector(10.0, 20.0),
            vec![vector(0.0, -5.0), vector(5.0, 5.0), vector(-5.0, 5.0)],
            vector(2.0, -4.0),
        ),
    ];
    let boxes = [
        (fx(10.0), fx(20.0), fx(40.0), fx(60.0)),
        (fx(5.0), fx(15.0), fx(15.0), fx(25.0)),
        (fx(5.0), fx(15.0), fx(15.0), fx(25.0)),
    ];
    for (body, expected) in bodies.iter_mut().zip(boxes) {
        assert_eq!(sides(body.aabb()), expected);
        assert_eq!(pair(body.speed()), (fx(2.0), fx(-4.0)));
        body.tick(fx(0.5));
        body.mov(vector(-1.0, 2.0));
        assert_eq!(sides(body.aabb()), expected);
        body.kick(vector(-2.0, 4.0));
        assert_eq!(pair(body.speed()), (0, 0));
    }
}

#[test]
fn bodies_of_all_kinds_collide_in_both_orders() {
    let bodies = vec![
        RectangleObject::new_obj(fx(0.0), fx(0.0), fx(10.0), fx(10.0), Vector::zero()),
        CircleObject::new_obj(vector(11.0, 5.0), fx(4.0), Vector::zero()),
        PolyhedronObject::new_obj(
            vector(13.5, 5.0),
            vec![vector(-5.0, -5.0), vector(5.0, -5.0), vector(5.0, 5.0), vector(-5.0, 5.0)],
            Vector::zero(),
        ),
    ];
    for a in 0..3 {
        for b in 0..3 {
            if a != b {
                let there = bodies[a].collides_with(&bodies[b]).unwrap();
                let back = bodies[b].collides_with(&bodies[a]).unwrap();
                assert_eq!(pair(there), (-back.x, -back.y));
                assert_eq!(there.y, 0);
                assert_eq!(there.x > 0, a < b);
            }
        }
    }
}
