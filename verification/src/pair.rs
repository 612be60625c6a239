//! A step in which two bodies alone have durability left.
//!
//! With no third body to come between them, what a step does to a pair
//! that collides can be said in full: the pair is struck once, each of the
//! two is brought back into the arena, and each travels if it has
//! durability left.
use crate::circle::CircleObject;
use crate::collisions::{circle_push, depth, gap};
use crate::fixed::{
    lemma_hypot_axis, prod, ratio, toward_zero, MINUS_ONE, MINUS_TWO, ONE, TWO,
};
use crate::geometry::Vector;
use crate::object::MetaObject;
use crate::scene::{
    arena, impulse, kept_inside, lemma_advanced, lemma_advanced_body, lemma_candidates,
    lemma_sweep, lemma_sweep_idle, lemma_tick_strikes, tree_of, Scene, EPSILON,
};
use crate::tree::{encloses, Tree};
use vstd::prelude::*;

verus! {

/// Raw value of the number five.
pub const FIVE: i64 = 0x5_0000_0000;

/// Raw value of the number eight.
pub const EIGHT: i64 = 0x8_0000_0000;

/// Raw value of the number minus eight.
pub const MINUS_EIGHT: i64 = -0x8_0000_0000;

/// The vector of the length `x` along the first axis.
pub open spec fn level(x: i64) -> Vector {
    Vector { x, y: 0 }
}

/// Turns of bodies without durability change nothing: when none of the
/// bodies from `from` up to `upto` has durability left after the first
/// `from` turns, the scene is after `upto` turns as it is after `from`.
pub proof fn lemma_sweep_rest(start: Scene, tree: Tree, size: Vector, from: int, upto: int)
    requires
        0 <= from <= upto,
        forall|k: int| from <= k < upto ==> start.swept(tree, size, from).health[k] <= 0,
    ensures
        start.swept(tree, size, upto) == start.swept(tree, size, from),
    decreases upto - from,
{
    if upto > from {
        lemma_sweep_rest(start, tree, size, from, upto - 1);
    }
}

/// A scan among candidates of which none is a later body with durability
/// left changes nothing.
pub proof fn lemma_scan_quiet(scene: Scene, i: int, cands: Seq<usize>)
    requires
        forall|c: int|
            0 <= c < cands.len() ==> !(i < #[trigger] cands[c] && scene.health[cands[c] as int]
                > 0),
    ensures
        scene.scanned(i, cands) == scene,
    decreases cands.len(),
{
    if cands.len() > 0 {
        let init = cands.drop_last();
        assert forall|c: int| 0 <= c < init.len() implies !(i < #[trigger] init[c]
            && scene.health[init[c] as int] > 0) by {
            assert(init[c] == cands[c]);
        }
        lemma_scan_quiet(scene, i, init);
        assert(cands.last() == cands[cands.len() - 1]);
    }
}

/// A body within the arena is left as it is when it is brought back.
pub proof fn lemma_kept_still(body: MetaObject, size: Vector)
    requires
        encloses(arena(size), body.bounds()),
    ensures
        kept_inside(body, size) == body,
{
    reveal(kept_inside);
}

/// What the turns of a step do when two bodies alone have durability left
/// and collide.
///
/// Let `i` and a later `j` be the only bodies with durability left, let
/// them collide, and let `j` lie within an arena with sides that are not
/// negative.  After all turns the durabilities are those after the strike,
/// body `i` is as the strike left it and brought back into the arena, and
/// so is body `j` if the strike left it durability; if not, body `j` is as
/// the strike left it.
pub proof fn lemma_sweep_lone_pair(start: Scene, size: Vector, i: int, j: int)
    requires
        start.wf(),
        0 <= i < j < start.bodies.len() <= usize::MAX,
        0 <= size.x && 0 <= size.y,
        forall|k: int| 0 <= k < start.bodies.len() ==> (start.health[k] > 0 <==> k == i || k == j),
        encloses(arena(size), start.bodies[j].bounds()),
        start.collides(i, j),
    ensures
        ({
            let n = start.bodies.len() as int;
            let hit = start.met(i, j);
            let s = start.swept(tree_of(start, size), size, n);
            &&& s.health == hit.health
            &&& s.bodies[i] == kept_inside(hit.bodies[i], size)
            &&& s.bodies[j] == if hit.health[j] > 0 {
                kept_inside(hit.bodies[j], size)
            } else {
                hit.bodies[j]
            }
        }),
{
    let n = start.bodies.len() as int;
    let tree = tree_of(start, size);
    let hit = start.met(i, j);

    // The turn of body `i`.
    lemma_sweep_idle(start, tree, size, i);
    let cands = start.candidates(tree, size, i);
    lemma_candidates(start, size, i as usize, start.bodies[i].bounds());
    let c = lemma_tick_strikes(start, size, i, j);
    if cands.len() > 1 {
        assert(cands[0] == j && cands[1] == j);
    }
    assert(cands =~= seq![j as usize]);
    assert(cands.drop_last() =~= Seq::<usize>::empty());
    assert(start.scanned(i, cands.drop_last()) == start);
    assert(start.scanned(i, cands) == hit);
    let first = start.swept(tree, size, i + 1);
    assert(first.health == hit.health);
    assert(first.bodies == hit.bodies.update(i, kept_inside(hit.bodies[i], size)));

    // The turns between the two.
    lemma_sweep_rest(start, tree, size, i + 1, j);

    // The turn of body `j`.
    let second = start.swept(tree, size, j + 1);
    if first.health[j] > 0 {
        let others = first.candidates(tree, size, j);
        lemma_candidates(start, size, j as usize, first.bodies[j].bounds());
        assert forall|c: int| 0 <= c < others.len() implies !(j < #[trigger] others[c]
            && first.health[others[c] as int] > 0) by {
            assert(start.health[others[c] as int] > 0);
        }
        lemma_scan_quiet(first, j, others);
        assert(second.bodies == first.bodies.update(j, kept_inside(first.bodies[j], size)));
    }
    assert(second.health == hit.health);

    // The turns after the two.
    lemma_sweep_rest(start, tree, size, j + 1, n);
}

/// Two discs that meet head on turn back and part.
///
/// Let two discs of radius five be the only bodies with durability left:
/// the earlier one around `at` with the speed `(1, 0)`, the later one eight
/// to the right of it with the speed `(-1, 0)`, both clear of the sides of
/// the arena by one more than they are moved.  One step strikes the pair
/// once.  It leaves the first disc one to the left of where it was, with
/// the speed `(-1, 0)`, and the second one one to the right, with the speed
/// `(1, 0)`; after that each disc travels for the duration of the step if
/// it has durability left.
pub proof fn lemma_two_discs(
    start: Scene,
    size: Vector,
    delta_time: i64,
    i: int,
    j: int,
    at: Vector,
)
    requires
        start.wf(),
        0 <= i < j < start.bodies.len() <= usize::MAX,
        forall|k: int| 0 <= k < start.bodies.len() ==> (start.health[k] > 0 <==> k == i || k == j),
        start.bodies[i] == MetaObject::Circle(
            CircleObject { center: at, radius: FIVE, speed: Vector { x: ONE, y: 0 } },
        ),
        start.bodies[j] == MetaObject::Circle(
            CircleObject {
                center: Vector { x: (at.x + EIGHT) as i64, y: at.y },
                radius: FIVE,
                speed: Vector { x: MINUS_ONE, y: 0 },
            },
        ),
        FIVE + ONE <= at.x,
        FIVE <= at.y,
        at.x + EIGHT + FIVE + ONE <= size.x,
        at.y + FIVE <= size.y,
    ensures
        ({
            let after = start.after_tick(size, delta_time);
            let left = MetaObject::Circle(
                CircleObject {
                    center: Vector { x: (at.x - ONE) as i64, y: at.y },
                    radius: FIVE,
                    speed: Vector { x: MINUS_ONE, y: 0 },
                },
            );
            let right = MetaObject::Circle(
                CircleObject {
                    center: Vector { x: (at.x + EIGHT + ONE) as i64, y: at.y },
                    radius: FIVE,
                    speed: Vector { x: ONE, y: 0 },
                },
            );
            &&& start.tick_log(size) =~= seq![(i, j)]
            &&& after.health[i] == start.health[i] - 1
            &&& after.health[j] == start.health[j] - 1
            &&& after.bodies[i] == if start.health[i] > 1 {
                left.ticked(delta_time)
            } else {
                left
            }
            &&& after.bodies[j] == if start.health[j] > 1 {
                right.ticked(delta_time)
            } else {
                right
            }
            &&& after.bodies[i].velocity() == Vector { x: MINUS_ONE, y: 0 }
            &&& after.bodies[j].velocity() == Vector { x: ONE, y: 0 }
        }),
{
    let n = start.bodies.len() as int;
    let tree = tree_of(start, size);
    let a = start.bodies[i]->Circle_0;
    let b = start.bodies[j]->Circle_0;
    let push = level(TWO);
    lemma_head_on(a, b);
    assert(start.bodies[i].push_from(&start.bodies[j]) == Some(push)) by {
        reveal(MetaObject::push_from);
    }
    lemma_hypot_axis(TWO);
    assert(push.len() == TWO);
    assert(start.collides(i, j));
    let hit = start.met(i, j);
    lemma_head_on_kicks(push);
    let left = MetaObject::Circle(
        CircleObject {
            center: Vector { x: (at.x - ONE) as i64, y: at.y },
            radius: FIVE,
            speed: Vector { x: MINUS_ONE, y: 0 },
        },
    );
    let right = MetaObject::Circle(
        CircleObject {
            center: Vector { x: (at.x + EIGHT + ONE) as i64, y: at.y },
            radius: FIVE,
            speed: Vector { x: ONE, y: 0 },
        },
    );
    assert(hit.bodies[i] == left);
    assert(hit.bodies[j] == right);
    lemma_kept_still(left, size);
    lemma_kept_still(right, size);
    lemma_sweep_lone_pair(start, size, i, j);
    crate::scene::lemma_tick_lone_pair(start, size, delta_time, i, j);
    let s = start.swept(tree, size, n);
    lemma_sweep(start, size, n);
    lemma_advanced_body(s, delta_time, n, i);
    lemma_advanced_body(s, delta_time, n, j);
    lemma_advanced(s, delta_time, n);
}

/// The push between two discs of radius five whose centers are eight apart
/// along the first axis is two long, toward the second disc.
proof fn lemma_head_on(a: CircleObject, b: CircleObject)
    requires
        a.radius == FIVE,
        b.radius == FIVE,
        b.center.x == a.center.x + EIGHT,
        b.center.y == a.center.y,
        0 <= a.center.x,
    ensures
        circle_push(&a, &b) == Some(level(TWO)),
{
    lemma_hypot_axis(MINUS_EIGHT);
    assert(a.center.minus(b.center) == level(MINUS_EIGHT));
    assert(gap(&a, &b) == EIGHT);
    assert(depth(&a, &b) == TWO);
    let quarter: i64 = 0x4000_0000;
    assert(toward_zero(TWO * ONE, EIGHT as int) == quarter) by {
        assert(TWO * ONE == 0x2_0000_0000_0000_0000);
        assert(0x2_0000_0000_0000_0000int / 0x8_0000_0000 == 0x4000_0000);
    }
    assert(ratio(TWO, EIGHT) == quarter);
    assert(toward_zero(EIGHT * quarter, ONE as int) == TWO) by {
        assert(EIGHT * quarter == 0x2_0000_0000_0000_0000);
        assert(0x2_0000_0000_0000_0000int / 0x1_0000_0000 == 0x2_0000_0000);
    }
    assert(prod(EIGHT, quarter) == TWO);
    assert(prod(0, quarter) == 0);
    assert(b.center.minus(a.center) == level(EIGHT));
}

/// What a push of two along the first axis does to speeds of one along that
/// axis: the body that travels with the push is kicked back by two, and so
/// is the body that travels against it.
proof fn lemma_head_on_kicks(push: Vector)
    requires
        push == level(TWO),
    ensures
        impulse(push, level(ONE)) == level(MINUS_TWO),
        impulse(push, level(MINUS_ONE)) == level(TWO),
{
    reveal(impulse);
    lemma_hypot_axis(TWO);
    assert(push.len() == TWO);
    assert(push.norm() == level(ONE));
}

} // verus!
