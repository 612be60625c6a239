use collide2d::circle::CircleObject;
use collide2d::collisions::{
    collide_aabb_aabb, collide_circle_rect, collide_cirle_circle, collide_poly_circle,
    collide_poly_poly, collide_poly_rect, collide_rect_rect, one_dimensional_collision, separate,
    Outline, INDIFFERENT,
};
use collide2d::fixed::ONE;
use collide2d::geometry::{Rectangle, Vector};
use collide2d::object::MetaObject;
use collide2d::polyhedron::PolyhedronObject;
use collide2d::rectangle::RectangleObject;

fn fx(v: f64) -> i64 {
    (v * 4294967296.0).round() as i64
}

fn units(v: i64) -> f64 {
    v as f64 / 4294967296.0
}

fn vector(x: f64, y: f64) -> Vector {
    Vector::new(fx(x), fx(y))
}

fn pair(v: Option<Vector>) -> Option<(i64, i64)> {
    v.map(|v| (v.x, v.y))
}

fn square(cx: f64, cy: f64, half: f64) -> PolyhedronObject {
    PolyhedronObject::new(
        vector(cx, cy),
        vec![
            vector(-half, -half),
            vector(half, -half),
            vector(half, half),
            vector(-half, half),
        ],
        Vector::zero(),
    )
}

#[test]
fn intervals_apart_have_no_push() {
    assert_eq!(one_dimensional_collision(vector(0.0, 1.0), vector(2.0, 3.0)), None);
    assert_eq!(one_dimensional_collision(vector(2.0, 3.0), vector(0.0, 1.0)), None);
}

#[test]
fn intervals_that_touch_have_a_push_of_zero() {
    assert_eq!(one_dimensional_collision(vector(0.0, 1.0), vector(1.0, 3.0)), Some(0));
    assert_eq!(one_dimensional_collision(vector(1.0, 3.0), vector(0.0, 1.0)), Some(0));
}

#[test]
fn interval_to_the_left_is_pushed_back() {
    assert_eq!(one_dimensional_collision(vector(0.0, 5.0), vector(3.0, 9.0)), Some(fx(-2.0)));
}

#[test]
fn interval_to_the_right_is_pushed_on() {
    assert_eq!(one_dimensional_collision(vector(3.0, 9.0), vector(0.0, 5.0)), Some(fx(2.0)));
}

#[test]
fn nested_intervals_are_indifferent() {
    assert_eq!(one_dimensional_collision(vector(0.0, 9.0), vector(3.0, 5.0)), Some(INDIFFERENT));
    assert_eq!(one_dimensional_collision(vector(3.0, 5.0), vector(0.0, 9.0)), Some(INDIFFERENT));
    assert_eq!(one_dimensional_collision(vector(0.0, 9.0), vector(0.0, 5.0)), Some(INDIFFERENT));
    assert_eq!(one_dimensional_collision(vector(0.0, 9.0), vector(0.0, 9.0)), Some(INDIFFERENT));
    assert_eq!(INDIFFERENT, i64::MAX);
}

#[test]
fn boxes_collide_along_the_axis_of_less_overlap() {
    let a = Rectangle::new(fx(0.0), fx(0.0), fx(10.0), fx(10.0));
    let right = Rectangle::new(fx(8.0), fx(3.0), fx(10.0), fx(10.0));
    assert_eq!(pair(collide_aabb_aabb(&a, &right)), Some((fx(2.0), 0)));
    assert_eq!(pair(collide_aabb_aabb(&right, &a)), Some((fx(-2.0), 0)));
    let below = Rectangle::new(fx(3.0), fx(9.0), fx(10.0), fx(10.0));
    assert_eq!(pair(collide_aabb_aabb(&a, &below)), Some((0, fx(1.0))));
    assert_eq!(pair(collide_aabb_aabb(&below, &a)), Some((0, fx(-1.0))));
}

#[test]
fn boxes_of_equal_overlap_collide_along_the_vertical_axis() {
    let a = Rectangle::new(fx(0.0), fx(0.0), fx(10.0), fx(10.0));
    let b = Rectangle::new(fx(7.0), fx(7.0), fx(10.0), fx(10.0));
    assert_eq!(pair(collide_aabb_aabb(&a, &b)), Some((0, fx(3.0))));
}

#[test]
fn boxes_apart_on_one_axis_do_not_collide() {
    let a = Rectangle::new(fx(0.0), fx(0.0), fx(10.0), fx(10.0));
    let beside = Rectangle::new(fx(11.0), fx(3.0), fx(10.0), fx(10.0));
    let under = Rectangle::new(fx(3.0), fx(11.0), fx(10.0), fx(10.0));
    assert_eq!(pair(collide_aabb_aabb(&a, &beside)), None);
    assert_eq!(pair(collide_aabb_aabb(&a, &under)), None);
    assert!(!a.collides_with(&beside));
    assert!(!a.collides_with(&under));
}

#[test]
fn box_nested_on_one_axis_collides_along_the_other() {
    let a = Rectangle::new(fx(0.0), fx(0.0), fx(10.0), fx(10.0));
    let b = Rectangle::new(fx(2.0), fx(8.0), fx(3.0), fx(10.0));
    assert_eq!(pair(collide_aabb_aabb(&a, &b)), Some((0, fx(2.0))));
}

#[test]
fn box_nested_on_both_axes_reports_the_indifferent_depth() {
    let a = Rectangle::new(fx(0.0), fx(0.0), fx(10.0), fx(10.0));
    let b = Rectangle::new(fx(2.0), fx(2.0), fx(3.0), fx(3.0));
    assert_eq!(pair(collide_aabb_aabb(&a, &b)), Some((0, INDIFFERENT)));
}

#[test]
fn rectangle_bodies_collide_as_their_boxes() {
    let a = RectangleObject::new(fx(0.0), fx(0.0), fx(10.0), fx(10.0), Vector::zero());
    let b = RectangleObject::new(fx(8.0), fx(3.0), fx(10.0), fx(10.0), Vector::zero());
    assert_eq!(pair(collide_rect_rect(&a, &b)), Some((fx(2.0), 0)));
    assert_eq!(pair(a.collides_with(&MetaObject::Rect(b))), Some((fx(2.0), 0)));
}

#[test]
fn circles_collide_when_closer_than_their_radii() {
    let a = CircleObject::new(vector(0.0, 0.0), fx(5.0), vector(1.0, 0.0));
    let b = CircleObject::new(vector(8.0, 0.0), fx(5.0), vector(-1.0, 0.0));
    assert_eq!(pair(collide_cirle_circle(&a, &b)), Some((fx(2.0), 0)));
    assert_eq!(pair(collide_cirle_circle(&b, &a)), Some((fx(-2.0), 0)));
}

#[test]
fn circle_push_points_from_the_first_center_to_the_second() {
    let a = CircleObject::new(vector(10.0, 10.0), fx(3.0), Vector::zero());
    let b = CircleObject::new(vector(13.0, 14.0), fx(3.0), Vector::zero());
    let push = collide_cirle_circle(&a, &b).unwrap();
    assert!((units(push.x) - 0.6).abs() < 0.000001);
    assert!((units(push.y) - 0.8).abs() < 0.000001);
    assert!((units(push.len()) - 1.0).abs() < 0.000001);
}

#[test]
fn circles_that_touch_or_are_apart_do_not_collide() {
    let a = CircleObject::new(vector(0.0, 0.0), fx(5.0), Vector::zero());
    let touching = CircleObject::new(vector(10.0, 0.0), fx(5.0), Vector::zero());
    let apart = CircleObject::new(vector(0.0, 11.0), fx(5.0), Vector::zero());
    assert_eq!(pair(collide_cirle_circle(&a, &touching)), None);
    assert_eq!(pair(collide_cirle_circle(&a, &apart)), None);
}

#[test]
fn circles_with_one_center_have_a_push_of_zero() {
    let a = CircleObject::new(vector(4.0, 4.0), fx(5.0), Vector::zero());
    let b = CircleObject::new(vector(4.0, 4.0), fx(1.0), Vector::zero());
    assert_eq!(pair(collide_cirle_circle(&a, &b)), Some((0, 0)));
}

#[test]
fn test_circle_rect_collision() {
    let circle = CircleObject::new(vector(50.0, 50.0), fx(30.0), Vector::zero());
    let rect = RectangleObject::new(fx(10.0), fx(10.0), fx(100.0), fx(30.0), Vector::zero());

    if let Some(collision) = collide_circle_rect(&circle, &rect) {
        assert!(units((collision - vector(0.0, -20.0)).len()) < 0.0000001);
    } else {
        panic!("Expected to find collision");
    }
}

#[test]
fn rectangle_and_circle_give_opposite_pushes() {
    let circle = CircleObject::new(vector(50.0, 50.0), fx(30.0), Vector::zero());
    let rect = RectangleObject::new(fx(10.0), fx(10.0), fx(100.0), fx(30.0), Vector::zero());
    let there = collide_circle_rect(&circle, &rect).unwrap();
    let back = rect
        .collides_with(&MetaObject::Circle(CircleObject::new(
            vector(50.0, 50.0),
            fx(30.0),
            Vector::zero(),
        )))
        .unwrap();
    assert_eq!((back.x, back.y), (-there.x, -there.y));
    assert_eq!((there.x, there.y), (0, fx(-20.0)));
}

#[test]
fn circle_apart_from_a_rectangle_on_one_axis_does_not_collide() {
    let circle = CircleObject::new(vector(50.0, 80.0), fx(30.0), Vector::zero());
    let rect = RectangleObject::new(fx(10.0), fx(10.0), fx(100.0), fx(30.0), Vector::zero());
    assert_eq!(pair(collide_circle_rect(&circle, &rect)), None);
}

#[test]
fn circle_near_a_corner_is_apart_on_the_joining_axis() {
    let rect = RectangleObject::new(fx(0.0), fx(0.0), fx(10.0), fx(10.0), Vector::zero());
    let circle = CircleObject::new(vector(13.0, 13.0), fx(4.0), Vector::zero());
    assert_eq!(pair(collide_circle_rect(&circle, &rect)), None);
    let nearer = CircleObject::new(vector(12.0, 12.0), fx(4.0), Vector::zero());
    assert!(collide_circle_rect(&nearer, &rect).is_some());
}

#[test]
fn polygon_and_rectangle_collide_along_the_least_overlap() {
    let poly = square(5.0, 5.0, 5.0);
    let rect = RectangleObject::new(fx(8.0), fx(3.0), fx(10.0), fx(10.0), Vector::zero());
    let push = collide_poly_rect(&poly, &rect).unwrap();
    assert_eq!((push.x, push.y), (fx(2.0), 0));
    let back = rect.collides_with(&MetaObject::Poly(square(5.0, 5.0, 5.0))).unwrap();
    assert_eq!((back.x, back.y), (fx(-2.0), 0));
}

#[test]
fn polygon_and_rectangle_apart_do_not_collide() {
    let poly = square(5.0, 5.0, 5.0);
    let rect = RectangleObject::new(fx(10.5), fx(3.0), fx(10.0), fx(10.0), Vector::zero());
    assert_eq!(pair(collide_poly_rect(&poly, &rect)), None);
}

#[test]
fn polygon_and_circle_collide_along_the_joining_axis() {
    let poly = square(5.0, 5.0, 5.0);
    let circle = CircleObject::new(vector(13.0, 5.0), fx(4.0), Vector::zero());
    let push = collide_poly_circle(&poly, &circle).unwrap();
    assert_eq!((push.x, push.y), (fx(1.0), 0));
    let back = circle.collides_with(&MetaObject::Poly(square(5.0, 5.0, 5.0))).unwrap();
    assert_eq!((back.x, back.y), (fx(-1.0), 0));
}

#[test]
fn polygon_and_circle_apart_do_not_collide() {
    let poly = square(5.0, 5.0, 5.0);
    let circle = CircleObject::new(vector(15.0, 5.0), fx(4.0), Vector::zero());
    assert_eq!(pair(collide_poly_circle(&poly, &circle)), None);
}

#[test]
fn polygons_collide_along_the_least_overlap() {
    let a = square(5.0, 5.0, 5.0);
    let b = square(12.0, 13.0, 5.0);
    let push = collide_poly_poly(&a, &b).unwrap();
    assert_eq!((push.x, push.y), (0, fx(2.0)));
    let back = collide_poly_poly(&b, &a).unwrap();
    assert_eq!((back.x, back.y), (0, fx(-2.0)));
}

#[test]
fn triangle_and_square_are_told_apart_by_an_edge_normal() {
    let triangle = PolyhedronObject::new(
        vector(0.0, 0.0),
        vec![vector(0.0, 0.0), vector(10.0, 0.0), vector(0.0, 10.0)],
        Vector::zero(),
    );
    let apart = square(7.0, 7.0, 1.5);
    assert_eq!(pair(collide_poly_poly(&triangle, &apart)), None);
    let inside = square(4.0, 4.0, 1.5);
    assert!(collide_poly_poly(&triangle, &inside).is_some());
}

#[test]
fn search_stops_at_the_first_axis_that_shows_the_shapes_apart() {
    let lines = vec![
        Rectangle::new(0, 0, ONE, 0),
        Rectangle::new(0, 0, 0, ONE),
    ];
    let a = Outline::Polygon(vec![vector(0.0, 0.0), vector(4.0, 4.0)]);
    let b = Outline::Polygon(vec![vector(5.0, 1.0), vector(9.0, 3.0)]);
    assert_eq!(pair(separate(&lines, &a, &b)), None);
}

#[test]
fn search_without_axes_finds_nothing() {
    let a = Outline::Disc(vector(0.0, 0.0), fx(1.0));
    let b = Outline::Disc(vector(0.5, 0.0), fx(1.0));
    assert_eq!(pair(separate(&Vec::new(), &a, &b)), None);
}

#[test]
fn search_takes_the_first_of_equal_depths() {
    let lines = vec![
        Rectangle::new(0, 0, 0, ONE),
        Rectangle::new(0, 0, ONE, 0),
    ];
    let a = Outline::Disc(vector(0.0, 0.0), fx(2.0));
    let b = Outline::Disc(vector(3.0, 3.0), fx(2.0));
    assert_eq!(pair(separate(&lines, &a, &b)), Some((0, fx(1.0))));
}

#[test]
fn outline_projects_as_its_shape() {
    let line = Rectangle::new(0, 0, ONE, 0);
    let disc = Outline::Disc(vector(3.0, 0.0), fx(2.0)).project(&line);
    assert_eq!((disc.x, disc.y), (fx(1.0), fx(5.0)));
    let polygon = Outline::Polygon(vec![vector(3.0, 7.0), vector(-1.0, 2.0)]).project(&line);
    assert_eq!((polygon.x, polygon.y), (fx(-1.0), fx(3.0)));
}

#[test]
fn shapes_indifferent_on_every_axis_have_no_push() {
    let poly = square(14.0, 5.0, 5.0);
    let circle = CircleObject::new(vector(13.0, 5.0), fx(4.0), Vector::zero());
    assert_eq!(pair(collide_poly_circle(&poly, &circle)), None);
    let inner = square(14.0, 5.0, 2.0);
    assert_eq!(pair(collide_poly_poly(&poly, &inner)), None);
}
