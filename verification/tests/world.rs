use collide2d::circle::CircleObject;
use collide2d::fixed::{HALF, MINUS_HALF, MINUS_TWO, ONE, THREE, TWO};
use collide2d::geometry::Vector;
use collide2d::object::MetaObject;
use collide2d::polyhedron::PolyhedronObject;
use collide2d::rectangle::RectangleObject;
use collide2d::scene::{DURABILITY, EPSILON};
use collide2d::world::{keep_inside, rebound, World};

fn fx(v: f64) -> i64 {
    (v * 4294967296.0).round() as i64
}

fn units(v: i64) -> f64 {
    v as f64 / 4294967296.0
}

fn vector(x: f64, y: f64) -> Vector {
    Vector::new(fx(x), fx(y))
}

fn rect(x: f64, y: f64, w: f64, h: f64, speed: Vector) -> MetaObject {
    RectangleObject::new_obj(fx(x), fx(y), fx(w), fx(h), speed)
}

fn center(world: &World, idx: usize) -> (i64, i64) {
    match world.object(idx) {
        Some(MetaObject::Circle(c)) => (c.center.x, c.center.y),
        Some(MetaObject::Rect(r)) => (r.shape.coord.x, r.shape.coord.y),
        Some(MetaObject::Poly(p)) => (p.center.x, p.center.y),
        None => panic!("no body {}", idx),
    }
}

fn speed(world: &World, idx: usize) -> (i64, i64) {
    let s = world.object(idx).unwrap().speed();
    (s.x, s.y)
}

#[test]
fn constants_have_their_values() {
    assert_eq!(DURABILITY, 3);
    assert_eq!(EPSILON, 42);
    assert!(units(EPSILON) <= 0.00000001);
    assert!(units(EPSILON + 1) > 0.00000001);
    assert_eq!(THREE, 3 * ONE);
    assert_eq!(MINUS_TWO, -TWO);
    assert_eq!(MINUS_HALF, -HALF);
}

#[test]
fn two_circles_head_on_turn_back_and_part() {
    let mut a = CircleObject::new_obj(vector(0.0, 0.0), fx(5.0), vector(1.0, 0.0));
    let mut b = CircleObject::new_obj(vector(8.0, 0.0), fx(5.0), vector(-1.0, 0.0));
    let push = a.collides_with(&b).unwrap();
    assert_eq!((push.x, push.y), (fx(2.0), 0));
    assert_eq!(push.len(), fx(2.0));
    let a_kick = rebound(push, a.speed());
    let b_kick = rebound(push, b.speed());
    a.kick(a_kick);
    a.mov(push * MINUS_HALF);
    b.kick(b_kick);
    b.mov(push * HALF);
    assert_eq!((a.speed().x, a.speed().y), (fx(-1.0), 0));
    assert_eq!((b.speed().x, b.speed().y), (fx(1.0), 0));
    assert_eq!((a.aabb().center().x, a.aabb().center().y), (fx(-1.0), 0));
    assert_eq!((b.aabb().center().x, b.aabb().center().y), (fx(9.0), 0));
}

#[test]
fn one_tick_resolves_two_circles_head_on() {
    let mut world = World::new(fx(1000.0), fx(1000.0));
    assert!(world.add(CircleObject::new_obj(vector(100.0, 100.0), fx(5.0), vector(1.0, 0.0))));
    assert!(world.add(CircleObject::new_obj(vector(108.0, 100.0), fx(5.0), vector(-1.0, 0.0))));
    world.tick(0);
    assert_eq!(center(&world, 0), (fx(99.0), fx(100.0)));
    assert_eq!(center(&world, 1), (fx(109.0), fx(100.0)));
    assert_eq!(speed(&world, 0), (fx(-1.0), 0));
    assert_eq!(speed(&world, 1), (fx(1.0), 0));
    assert_eq!(world.durability(0), Some(2));
    assert_eq!(world.durability(1), Some(2));
    world.tick(fx(1.0));
    assert_eq!(center(&world, 0), (fx(98.0), fx(100.0)));
    assert_eq!(center(&world, 1), (fx(110.0), fx(100.0)));
    assert_eq!(world.durability(0), Some(2));
    assert_eq!(world.durability(1), Some(2));
}

#[test]
fn rebound_leaves_the_speed_across_the_push() {
    let kick = rebound(vector(0.0, 3.0), vector(7.0, 2.0));
    assert_eq!((kick.x, kick.y), (0, fx(-4.0)));
    let none = rebound(vector(3.0, 0.0), vector(0.0, 5.0));
    assert_eq!((none.x, none.y), (0, 0));
}

#[test]
fn empty_world_ticks_and_exports_nothing() {
    let mut world = World::new(fx(100.0), fx(100.0));
    assert_eq!(world.len(), 0);
    world.tick(fx(0.016));
    assert_eq!(world.export(), Vec::<i64>::new());
    assert_eq!(world.export_quad_tree(), vec![0]);
    assert!(world.object(0).is_none());
    assert_eq!(world.durability(0), None);
}

#[test]
fn free_body_travels_by_speed_times_time() {
    let mut world = World::new(fx(1000.0), fx(1000.0));
    world.add(rect(100.0, 200.0, 10.0, 10.0, vector(30.0, -40.0)));
    world.tick(fx(0.5));
    assert_eq!(center(&world, 0), (fx(115.0), fx(180.0)));
    assert_eq!(speed(&world, 0), (fx(30.0), fx(-40.0)));
    assert_eq!(world.durability(0), Some(3));
}

#[test]
fn immovable_body_stays() {
    let mut world = World::new(fx(1000.0), fx(1000.0));
    world.add(RectangleObject::new_obj_immovable(
        fx(-100.0),
        fx(200.0),
        fx(10.0),
        fx(10.0),
        vector(30.0, -40.0),
    ));
    world.tick(fx(0.5));
    assert_eq!(center(&world, 0), (fx(-100.0), fx(200.0)));
    assert_eq!(speed(&world, 0), (fx(30.0), fx(-40.0)));
}

#[test]
fn body_past_a_side_is_brought_back_and_turned() {
    let mut left = CircleObject::new_obj(vector(3.0, 50.0), fx(5.0), vector(-7.0, 1.0));
    keep_inside(&mut left, vector(100.0, 100.0));
    assert_eq!((left.aabb().left(), left.aabb().top()), (0, fx(45.0)));
    assert_eq!((left.speed().x, left.speed().y), (fx(7.0), fx(1.0)));

    let mut corner = rect(95.0, 98.0, 10.0, 10.0, vector(2.0, 3.0));
    keep_inside(&mut corner, vector(100.0, 100.0));
    assert_eq!((corner.aabb().right(), corner.aabb().bottom()), (fx(100.0), fx(100.0)));
    assert_eq!((corner.speed().x, corner.speed().y), (fx(-2.0), fx(-3.0)));

    let mut inside = CircleObject::new_obj(vector(50.0, 50.0), fx(5.0), vector(-7.0, 1.0));
    keep_inside(&mut inside, vector(100.0, 100.0));
    assert_eq!((inside.aabb().left(), inside.aabb().top()), (fx(45.0), fx(45.0)));
    assert_eq!((inside.speed().x, inside.speed().y), (fx(-7.0), fx(1.0)));
}

#[test]
fn tick_brings_a_body_back_before_it_travels() {
    let mut world = World::new(fx(100.0), fx(100.0));
    world.add(CircleObject::new_obj(vector(3.0, 50.0), fx(5.0), vector(-7.0, 0.0)));
    world.tick(fx(1.0));
    assert_eq!(center(&world, 0), (fx(12.0), fx(50.0)));
    assert_eq!(speed(&world, 0), (fx(7.0), 0));
    assert_eq!(world.durability(0), Some(3));
}

#[test]
fn snapshot_holds_a_record_for_each_body() {
    let mut world = World::new(fx(1000.0), fx(1000.0));
    world.add(RectangleObject::new_obj(fx(100.0), fx(200.0), fx(10.0), fx(20.0), Vector::zero()));
    world.add(CircleObject::new_obj(vector(300.0, 400.0), fx(5.0), Vector::zero()));
    world.add(PolyhedronObject::new_obj(
        vector(600.0, 600.0),
        vec![vector(0.0, -10.0), vector(10.0, 10.0), vector(-10.0, 10.0)],
        Vector::zero(),
    ));
    let expected = vec![
        ONE,
        fx(3.0),
        fx(100.0),
        fx(200.0),
        fx(10.0),
        fx(20.0),
        TWO,
        fx(3.0),
        fx(300.0),
        fx(400.0),
        fx(5.0),
        THREE,
        fx(3.0),
        fx(3.0),
        fx(600.0),
        fx(590.0),
        fx(610.0),
        fx(610.0),
        fx(590.0),
        fx(610.0),
        fx(590.0),
        fx(590.0),
        fx(20.0),
        fx(20.0),
    ];
    assert_eq!(world.export(), expected);
}

#[test]
fn snapshot_taken_twice_is_the_same() {
    let mut world = World::new(fx(1000.0), fx(1000.0));
    world.add(CircleObject::new_obj(vector(100.0, 100.0), fx(5.0), vector(1.0, 0.0)));
    world.add(CircleObject::new_obj(vector(108.0, 100.0), fx(5.0), vector(-1.0, 0.0)));
    world.add(RectangleObject::new_obj(fx(100.0), fx(200.0), fx(10.0), fx(20.0), vector(3.0, 4.0)));
    world.tick(fx(0.25));
    let first = world.export();
    let second = world.export();
    assert_eq!(first, second);
    assert_eq!(world.export_quad_tree(), world.export_quad_tree());
}

#[test]
fn durability_never_grows() {
    let mut world = World::new(fx(200.0), fx(200.0));
    for k in 0..12 {
        let at = 20.0 + 13.0 * k as f64;
        let speed = vector(40.0 - 7.0 * k as f64, 3.0);
        world.add(CircleObject::new_obj(vector(at, 100.0), fx(8.0), speed));
        world.add(rect(at, 60.0, 12.0, 12.0, vector(-5.0, 20.0)));
    }
    let mut before: Vec<isize> = (0..world.len()).map(|i| world.durability(i).unwrap()).collect();
    for _ in 0..40 {
        world.tick(fx(0.05));
        let after: Vec<isize> = (0..world.len()).map(|i| world.durability(i).unwrap()).collect();
        for i in 0..after.len() {
            assert!(after[i] <= before[i]);
        }
        before = after;
    }
    assert!(before.iter().any(|h| *h < DURABILITY));
}

#[test]
fn a_pair_costs_each_body_one_point_in_a_tick() {
    let mut world = World::new(fx(1000.0), fx(1000.0));
    world.add(RectangleObject::new_obj(fx(100.0), fx(100.0), fx(10.0), fx(10.0), Vector::zero()));
    world.add(RectangleObject::new_obj(fx(108.0), fx(101.0), fx(10.0), fx(10.0), Vector::zero()));
    world.tick(0);
    assert_eq!(world.durability(0), Some(2));
    assert_eq!(world.durability(1), Some(2));
    assert_eq!(center(&world, 0), (fx(99.0), fx(100.0)));
    assert_eq!(center(&world, 1), (fx(109.0), fx(101.0)));
}

#[test]
fn body_without_durability_is_left_out() {
    let mut world = World::new(fx(1000.0), fx(1000.0));
    world.add(RectangleObject::new_obj_immovable(
        fx(100.0),
        fx(100.0),
        fx(10.0),
        fx(10.0),
        Vector::zero(),
    ));
    world.add(RectangleObject::new_obj_immovable(
        fx(108.0),
        fx(101.0),
        fx(10.0),
        fx(10.0),
        Vector::zero(),
    ));
    world.add(CircleObject::new_obj(vector(500.0, 500.0), fx(5.0), vector(1.0, 0.0)));
    for expected in [2, 1, 0, 0, 0] {
        world.tick(fx(1.0));
        assert_eq!(world.durability(0), Some(expected));
        assert_eq!(world.durability(1), Some(expected));
        assert_eq!(world.durability(2), Some(3));
    }
    assert_eq!(world.len(), 3);
    assert_eq!(world.export(), vec![TWO, fx(3.0), fx(505.0), fx(500.0), fx(5.0)]);
    assert_eq!(world.export_quad_tree(), vec![0]);
}

#[test]
fn quad_tree_of_the_world_is_exported_as_tags() {
    let mut world = World::new(fx(1000.0), fx(1000.0));
    world.add(CircleObject::new_obj(vector(100.0, 100.0), fx(5.0), Vector::zero()));
    assert_eq!(world.export_quad_tree(), vec![0]);
    world.add(CircleObject::new_obj(vector(900.0, 900.0), fx(5.0), Vector::zero()));
    assert_eq!(world.export_quad_tree(), vec![ONE, 0, 0, 0, 0]);
}

#[test]
fn push_shorter_than_epsilon_is_ignored() {
    let mut world = World::new(fx(1000.0), fx(1000.0));
    world.add(RectangleObject::new_obj(fx(100.0), fx(100.0), fx(10.0), fx(10.0), Vector::zero()));
    let near = fx(110.0) - EPSILON;
    world.add(RectangleObject::new_obj(near, fx(101.0), fx(10.0), fx(10.0), Vector::zero()));
    world.tick(0);
    assert_eq!(world.durability(0), Some(3));
    assert_eq!(world.durability(1), Some(3));
    let mut other = World::new(fx(1000.0), fx(1000.0));
    other.add(RectangleObject::new_obj(fx(100.0), fx(100.0), fx(10.0), fx(10.0), Vector::zero()));
    let nearer = fx(110.0) - EPSILON - 1;
    other.add(RectangleObject::new_obj(nearer, fx(101.0), fx(10.0), fx(10.0), Vector::zero()));
    other.tick(0);
    assert_eq!(other.durability(0), Some(2));
    assert_eq!(other.durability(1), Some(2));
}

#[test]
fn body_without_durability_stays_as_it_is() {
    let mut world = World::new(fx(40.0), fx(20.0));
    world.add(CircleObject::new_obj(vector(12.0, 10.0), fx(5.0), vector(10.0, 0.0)));
    world.add(CircleObject::new_obj(vector(28.0, 10.0), fx(5.0), vector(-10.0, 0.0)));
    for _ in 0..2000 {
        world.tick(fx(0.05));
        if world.durability(0) == Some(0) {
            break;
        }
    }
    assert_eq!(world.durability(0), Some(0));
    assert_eq!(world.durability(1), Some(0));
    let place = (center(&world, 0), center(&world, 1));
    let speeds = (speed(&world, 0), speed(&world, 1));
    world.tick(fx(1.0));
    assert_eq!((center(&world, 0), center(&world, 1)), place);
    assert_eq!((speed(&world, 0), speed(&world, 1)), speeds);
    assert_eq!(world.export(), Vec::<i64>::new());
}

#[test]
fn world_counts_the_bodies_that_were_added() {
    let mut world = World::new(fx(10.0), fx(10.0));
    assert!(world.add(rect(1.0, 1.0, 1.0, 1.0, Vector::zero())));
    assert!(world.add(CircleObject::new_obj(vector(5.0, 5.0), fx(1.0), Vector::zero())));
    assert_eq!(world.len(), 2);
    assert_eq!(world.durability(0), Some(DURABILITY));
    assert_eq!(world.durability(1), Some(DURABILITY));
    assert!(world.object(1).is_some());
    assert!(world.object(2).is_none());
}

#[test]
fn pair_on_the_far_side_of_an_arena_of_odd_size_is_struck() {
    let side = 2 * ONE + 1;
    let mut world = World::new(side, side);
    world.add(RectangleObject::new_obj(side, 0, 0, ONE, Vector::zero()));
    world.add(RectangleObject::new_obj(
        side - ONE,
        ONE - ONE / 16,
        ONE,
        ONE,
        Vector::zero(),
    ));
    world.tick(0);
    assert_eq!(world.durability(0), Some(2));
    assert_eq!(world.durability(1), Some(2));
    assert_eq!(center(&world, 0), (side, 0));
    assert_eq!(center(&world, 1), (side - ONE, ONE - ONE / 16 + ONE / 32));
}

#[test]
fn body_ends_a_step_no_farther_out_than_it_travels() {
    let mut world = World::new(fx(100.0), fx(100.0));
    world.add(CircleObject::new_obj(vector(97.0, 50.0), fx(5.0), vector(40.0, -30.0)));
    world.add(rect(-3.0, 95.0, 10.0, 10.0, vector(-8.0, 6.0)));
    world.tick(fx(0.25));
    for idx in 0..2 {
        let body = world.object(idx).unwrap();
        let aabb = body.aabb();
        let way_x = (body.speed().x / 4).abs();
        let way_y = (body.speed().y / 4).abs();
        assert!(aabb.left() >= -way_x);
        assert!(aabb.right() <= fx(100.0) + way_x);
        assert!(aabb.top() >= -way_y);
        assert!(aabb.bottom() <= fx(100.0) + way_y);
    }
    assert_eq!(center(&world, 0), (fx(85.0), fx(42.5)));
    assert_eq!(speed(&world, 0), (fx(-40.0), fx(-30.0)));
    assert_eq!(center(&world, 1), (fx(2.0), fx(88.5)));
    assert_eq!(speed(&world, 1), (fx(8.0), fx(-6.0)));
}
