use collide2d::fixed::ONE;
use collide2d::geometry::{project_circle, project_point, project_points, Rectangle, Vector};

fn fx(v: f64) -> i64 {
    (v * 4294967296.0).round() as i64
}

fn units(v: i64) -> f64 {
    v as f64 / 4294967296.0
}

fn vector(x: f64, y: f64) -> Vector {
    Vector::new(fx(x), fx(y))
}

#[test]
fn test_point_projection_on_vertical() {
    let line = Rectangle::new(fx(0.0), fx(0.0), fx(0.0), fx(1.0));
    let point = vector(2.0, 2.0);
    assert!((units(project_point(&line, point)) - 2.0).abs() < 0.000001);
}

#[test]
fn test_point_projection_on_horisontal() {
    let line = Rectangle::new(fx(0.0), fx(0.0), fx(1.0), fx(0.0));
    let point = vector(2.0, 2.0);
    assert!((units(project_point(&line, point)) - 2.0).abs() < 0.000001);
}

#[test]
fn test_point_projection_on_diagonal() {
    let line = Rectangle::new_vec(vector(0.0, 0.0), vector(1.0, 1.0).norm());
    let point = vector(1.0, 1.0);
    assert!((units(project_point(&line, point)) - units(vector(1.0, 1.0).len())).abs() < 0.000001);
}

#[test]
fn test_point_projection_on_non_zero() {
    let line = Rectangle::new_vec(vector(1.0, 1.0), vector(1.0, 1.0).norm());
    let point = vector(2.0, 2.0);
    assert!((units(project_point(&line, point)) - units(vector(1.0, 1.0).len())).abs() < 0.000001);
}

#[test]
fn projection_on_an_axis_is_exact_for_whole_numbers() {
    let line = Rectangle::new(fx(1.0), fx(-1.0), fx(0.0), fx(1.0));
    assert_eq!(project_point(&line, vector(5.0, 2.0)), fx(3.0));
    assert_eq!(project_point(&line, vector(5.0, -4.0)), fx(-3.0));
}

#[test]
fn vector_arithmetic() {
    let a = vector(1.0, 2.0);
    let b = vector(0.5, -4.0);
    let s = a + b;
    assert_eq!((s.x, s.y), (fx(1.5), fx(-2.0)));
    let d = a - b;
    assert_eq!((d.x, d.y), (fx(0.5), fx(6.0)));
    let m = a * fx(-2.0);
    assert_eq!((m.x, m.y), (fx(-2.0), fx(-4.0)));
    let mut c = a;
    c += b;
    assert_eq!((c.x, c.y), (fx(1.5), fx(-2.0)));
    c -= b;
    assert_eq!((c.x(), c.y()), (fx(1.0), fx(2.0)));
    assert_eq!(a.dot(&b), fx(-7.5));
    assert_eq!(a.dot_sqr(), fx(5.0));
    let z = Vector::zero();
    assert_eq!((z.x, z.y), (0, 0));
}

#[test]
fn length_is_the_rounded_down_euclidean_length() {
    assert_eq!(vector(3.0, 4.0).len(), fx(5.0));
    assert_eq!(vector(-6.0, 8.0).len(), fx(10.0));
    assert_eq!(vector(1.0, 1.0).len(), 6074000999);
    assert_eq!(Vector::zero().len(), 0);
}

#[test]
fn norm_has_length_one() {
    let n = vector(3.0, 4.0).norm();
    assert_eq!((n.x, n.y), (2576980377, 3435973836));
    let d = vector(-10.0, 0.0).norm();
    assert_eq!((d.x, d.y), (-ONE, 0));
    let u = vector(1.0, 1.0).norm();
    assert!((units(u.len()) - 1.0).abs() < 0.000000001);
}

#[test]
fn norm_of_the_zero_vector_is_the_zero_vector() {
    let n = Vector::zero().norm();
    assert_eq!((n.x, n.y), (0, 0));
}

#[test]
fn rectangle_sides_center_and_corners() {
    let r = Rectangle::new(fx(10.0), fx(20.0), fx(30.0), fx(40.0));
    assert_eq!(r.left(), fx(10.0));
    assert_eq!(r.right(), fx(40.0));
    assert_eq!(r.top(), fx(20.0));
    assert_eq!(r.bottom(), fx(60.0));
    let c = r.center();
    assert_eq!((c.x, c.y), (fx(25.0), fx(40.0)));
    let corners: Vec<(i64, i64)> = r.points().iter().map(|p| (p.x, p.y)).collect();
    assert_eq!(
        corners,
        vec![
            (fx(10.0), fx(20.0)),
            (fx(40.0), fx(20.0)),
            (fx(40.0), fx(60.0)),
            (fx(10.0), fx(60.0)),
        ]
    );
}

#[test]
fn rectangles_that_touch_do_collide() {
    let a = Rectangle::new(fx(0.0), fx(0.0), fx(10.0), fx(10.0));
    let touching = Rectangle::new(fx(10.0), fx(10.0), fx(5.0), fx(5.0));
    let apart = Rectangle::new(fx(10.0) + 1, fx(0.0), fx(5.0), fx(5.0));
    let inside = Rectangle::new(fx(2.0), fx(2.0), fx(1.0), fx(1.0));
    assert!(a.collides_with(&touching));
    assert!(touching.collides_with(&a));
    assert!(!a.collides_with(&apart));
    assert!(!apart.collides_with(&a));
    assert!(a.collides_with(&inside));
    assert!(inside.collides_with(&a));
}

#[test]
fn points_project_to_a_tight_interval() {
    let line = Rectangle::new(fx(0.0), fx(0.0), fx(1.0), fx(0.0));
    let points = vec![vector(3.0, 9.0), vector(-2.0, 1.0), vector(7.0, -5.0), vector(0.0, 0.0)];
    let shadow = project_points(&line, &points);
    assert_eq!((shadow.x, shadow.y), (fx(-2.0), fx(7.0)));
}

#[test]
fn no_points_project_to_the_empty_interval() {
    let line = Rectangle::new(fx(0.0), fx(0.0), fx(1.0), fx(0.0));
    let shadow = project_points(&line, &[]);
    assert_eq!((shadow.x, shadow.y), (i64::MAX, i64::MIN));
}

#[test]
fn circle_projects_to_center_widened_by_radius() {
    let line = Rectangle::new(fx(1.0), fx(0.0), fx(0.0), fx(1.0));
    let shadow = project_circle(&line, vector(4.0, 6.0), fx(2.5));
    assert_eq!((shadow.x, shadow.y), (fx(3.5), fx(8.5)));
}
