//! The state of a world and one step of it, as mathematics.
//!
//! `Scene` is what a `World` stands for.  The functions here say what a
//! step does to a scene, and the lemmas say what holds of every step.
use crate::fixed::{
    diff, magnitude, negated, prod, tame, whole, HALF, MINUS_HALF, MINUS_TWO, ONE, THREE, TWO,
};
use crate::geometry::{Rectangle, Vector};
use crate::object::MetaObject;
use crate::tree::{
    encloses, lemma_inserted, lemma_inserted_settled, lemma_query_finds, lemma_query_sound,
    lemma_times_distinct, lemma_times_index, Tree,
};
use vstd::prelude::*;

verus! {

/// The durability that a body starts with.
pub const DURABILITY: isize = 3;

/// The longest push that is too short to act on: the largest raw length
/// that does not exceed a hundred-millionth.
pub const EPSILON: i64 = 42;

/// The state of a world: its bodies, and the durability of each.
pub struct Scene {
    pub bodies: Seq<MetaObject>,
    pub health: Seq<int>,
}

/// The region of an arena of the given size: from the origin to `size`.
pub open spec fn arena(size: Vector) -> Rectangle {
    Rectangle { coord: Vector { x: 0, y: 0 }, size }
}

/// The change of speed of a body that travels at `speed` and takes part in
/// a collision with the push `push`: against the direction of the push,
/// twice the speed of the body along that direction.  What the body does
/// across the push stays as it is.
#[verifier::opaque]
pub open spec fn impulse(push: Vector, speed: Vector) -> Vector {
    let n = push.norm();
    n.scaled(prod(MINUS_TWO, n.dot(&speed)))
}

/// The body after it has been brought back into an arena of the given size.
///
/// On each axis on which the box of the body reaches past a side of the
/// arena, the body loses twice its speed along that axis and is displaced
/// by the distance that it reaches past the side.  When the box reaches
/// past both sides of an axis, the far side decides.
#[verifier::opaque]
pub open spec fn kept_inside(body: MetaObject, size: Vector) -> MetaObject {
    let aabb = body.bounds();
    let speed = body.velocity();
    let kick = Vector {
        x: if aabb.left() < 0 || aabb.right() > size.x {
            prod(speed.x, MINUS_TWO)
        } else {
            0
        },
        y: if aabb.top() < 0 || aabb.bottom() > size.y {
            prod(speed.y, MINUS_TWO)
        } else {
            0
        },
    };
    let mov = Vector {
        x: if aabb.right() > size.x {
            diff(size.x, aabb.right())
        } else if aabb.left() < 0 {
            negated(aabb.left())
        } else {
            0
        },
        y: if aabb.bottom() > size.y {
            diff(size.y, aabb.bottom())
        } else if aabb.top() < 0 {
            negated(aabb.top())
        } else {
            0
        },
    };
    body.kicked(kick).moved(mov)
}

/// The coordinates of `points`, point after point, `x` before `y`.
pub open spec fn coordinates(points: Seq<Vector>) -> Seq<i64>
    decreases points.len(),
{
    if points.len() == 0 {
        Seq::empty()
    } else {
        coordinates(points.drop_last()).push(points.last().x).push(points.last().y)
    }
}

/// The record of a body in a snapshot.
///
/// A box: one, the durability, left, top, width, height.  A disc: two, the
/// durability, the center, the radius.  A polygon: three, the durability,
/// the number of vertices, the vertices, and left, top, width and height
/// of the box around it.
pub open spec fn record(body: MetaObject, health: int) -> Seq<i64> {
    match body {
        MetaObject::Rect(rect) => seq![
            ONE,
            whole(health),
            rect.left(),
            rect.top(),
            rect.shape.size.x,
            rect.shape.size.y,
        ],
        MetaObject::Circle(circle) => seq![
            TWO,
            whole(health),
            circle.center.x,
            circle.center.y,
            circle.radius,
        ],
        MetaObject::Poly(poly) => seq![THREE, whole(health), whole(poly.points@.len() as int)]
            + coordinates(poly.vertices()) + seq![
            poly.bounds().left(),
            poly.bounds().top(),
            poly.bounds().size.x,
            poly.bounds().size.y,
        ],
    }
}

/// The number of pairs in `log` that body `k` is part of.
pub open spec fn involved(log: Seq<(int, int)>, k: int) -> nat
    decreases log.len(),
{
    if log.len() == 0 {
        0
    } else if log.last().0 == k || log.last().1 == k {
        involved(log.drop_last(), k) + 1
    } else {
        involved(log.drop_last(), k)
    }
}

impl Scene {
    /// Every body has its durability.
    pub open spec fn wf(self) -> bool {
        self.health.len() == self.bodies.len()
    }

    /// The tree over the arena that indexes the boxes of the first `upto`
    /// bodies, without those whose durability is spent.
    pub open spec fn indexed(self, size: Vector, upto: int) -> Tree
        decreases upto,
    {
        if upto <= 0 {
            Tree::leaf()
        } else {
            let before = self.indexed(size, upto - 1);
            if self.health[upto - 1] <= 0 {
                before
            } else {
                before.inserted(
                    ((upto - 1) as usize, self.bodies[upto - 1].bounds()),
                    arena(size),
                )
            }
        }
    }

    /// Body `i` collides with the candidate `j`: `j` comes after `i` and
    /// has durability left, the boxes of the two overlap, and the narrow
    /// phase finds a push from `i` toward `j` that is longer than `EPSILON`.
    pub open spec fn collides(self, i: int, j: int) -> bool {
        &&& i < j < self.bodies.len()
        &&& self.health[j] > 0
        &&& self.bodies[i].bounds().overlaps(&self.bodies[j].bounds())
        &&& self.bodies[i].push_from(&self.bodies[j]) matches Some(v)
        &&& v.len() > EPSILON
    }

    /// The scene after bodies `i` and `j` have collided with the push `v`,
    /// which points from `i` toward `j`.
    ///
    /// Each body loses twice its speed along the push, `i` retreats by half
    /// the push and `j` advances by half of it, and both lose one point of
    /// durability.
    pub open spec fn struck(self, i: int, j: int, v: Vector) -> Scene {
        let a = self.bodies[i];
        let b = self.bodies[j];
        let a_kick = impulse(v, a.velocity());
        let b_kick = impulse(v, b.velocity());
        Scene {
            bodies: self.bodies.update(i, a.kicked(a_kick).moved(v.scaled(MINUS_HALF))).update(
                j,
                b.kicked(b_kick).moved(v.scaled(HALF)),
            ),
            health: self.health.update(i, self.health[i] - 1).update(j, self.health[j] - 1),
        }
    }

    /// The scene after body `i` has examined the candidate `j`: the two are
    /// struck if they collide, and nothing happens if they do not.
    pub open spec fn met(self, i: int, j: int) -> Scene {
        if self.collides(i, j) {
            self.struck(i, j, self.bodies[i].push_from(&self.bodies[j])->0)
        } else {
            self
        }
    }

    /// The scene after body `i` has examined the candidates `cands`, in
    /// order.
    pub open spec fn scanned(self, i: int, cands: Seq<usize>) -> Scene
        decreases cands.len(),
    {
        if cands.len() == 0 {
            self
        } else {
            self.scanned(i, cands.drop_last()).met(i, cands.last() as int)
        }
    }

    /// The candidates that `tree` names for body `i` as it is now.
    pub open spec fn candidates(self, tree: Tree, size: Vector, i: int) -> Seq<usize> {
        tree.query(i as usize, self.bodies[i].bounds(), arena(size))
    }

    /// The scene after the turn of body `i`: it examines the candidates that
    /// `tree` names for its box, and is then brought back into the arena.  A
    /// body whose durability is spent has no turn.
    pub open spec fn visited(self, tree: Tree, size: Vector, i: int) -> Scene {
        if self.health[i] <= 0 {
            self
        } else {
            let s = self.scanned(i, self.candidates(tree, size, i));
            Scene { bodies: s.bodies.update(i, kept_inside(s.bodies[i], size)), health: s.health }
        }
    }

    /// The scene after the turns of the first `upto` bodies.
    pub open spec fn swept(self, tree: Tree, size: Vector, upto: int) -> Scene
        decreases upto,
    {
        if upto <= 0 {
            self
        } else {
            self.swept(tree, size, upto - 1).visited(tree, size, upto - 1)
        }
    }

    /// The scene after those of the first `upto` bodies that have durability
    /// left have travelled for `delta_time`.
    pub open spec fn advanced(self, delta_time: i64, upto: int) -> Scene
        decreases upto,
    {
        if upto <= 0 {
            self
        } else {
            let s = self.advanced(delta_time, upto - 1);
            if s.health[upto - 1] <= 0 {
                s
            } else {
                Scene {
                    bodies: s.bodies.update(upto - 1, s.bodies[upto - 1].ticked(delta_time)),
                    health: s.health,
                }
            }
        }
    }

    /// The scene after one step in an arena of the given size.
    ///
    /// The boxes of the bodies are indexed as they are before the step.
    /// Every body has its turn, in order.  Then all bodies travel.
    pub open spec fn after_tick(self, size: Vector, delta_time: i64) -> Scene {
        let n = self.bodies.len() as int;
        self.swept(self.indexed(size, n), size, n).advanced(delta_time, n)
    }

    /// The records of the first `upto` bodies, without those whose
    /// durability is spent.
    pub open spec fn snapshot(self, upto: int) -> Seq<i64>
        decreases upto,
    {
        if upto <= 0 {
            Seq::empty()
        } else if self.health[upto - 1] <= 0 {
            self.snapshot(upto - 1)
        } else {
            self.snapshot(upto - 1) + record(self.bodies[upto - 1], self.health[upto - 1])
        }
    }

    /// The pairs that are struck while body `i` examines the candidates
    /// `cands`, in order.
    pub open spec fn scan_log(self, i: int, cands: Seq<usize>) -> Seq<(int, int)>
        decreases cands.len(),
    {
        if cands.len() == 0 {
            Seq::empty()
        } else if self.scanned(i, cands.drop_last()).collides(i, cands.last() as int) {
            self.scan_log(i, cands.drop_last()).push((i, cands.last() as int))
        } else {
            self.scan_log(i, cands.drop_last())
        }
    }

    /// The pairs that are struck during the turns of the first `upto`
    /// bodies, in order.
    pub open spec fn sweep_log(self, tree: Tree, size: Vector, upto: int) -> Seq<(int, int)>
        decreases upto,
    {
        if upto <= 0 {
            Seq::empty()
        } else {
            let before = self.swept(tree, size, upto - 1);
            if before.health[upto - 1] <= 0 {
                self.sweep_log(tree, size, upto - 1)
            } else {
                self.sweep_log(tree, size, upto - 1) + before.scan_log(
                    upto - 1,
                    before.candidates(tree, size, upto - 1),
                )
            }
        }
    }

    /// The pairs that are struck during one step, in order.
    pub open spec fn tick_log(self, size: Vector) -> Seq<(int, int)> {
        let n = self.bodies.len() as int;
        self.sweep_log(self.indexed(size, n), size, n)
    }
}

/// What the index of a scene holds: one entry for each of the first `upto`
/// bodies that has durability left, with the id and the box of the body.
pub proof fn lemma_indexed(scene: Scene, size: Vector, upto: int)
    requires
        0 <= upto <= scene.bodies.len() <= usize::MAX,
    ensures
        scene.indexed(size, upto).settled(arena(size)),
        scene.indexed(size, upto).shaped(),
        scene.indexed(size, upto).size() <= upto,
        forall|id: usize| #[trigger]
            scene.indexed(size, upto).count(id) == if id < upto && scene.health[id as int] > 0 {
                1nat
            } else {
                0nat
            },
        forall|e: (usize, Rectangle)| #[trigger]
            scene.indexed(size, upto).holds(e) <==> e.0 < upto && scene.health[e.0 as int] > 0
                && e.1 == scene.bodies[e.0 as int].bounds(),
    decreases upto,
{
    if upto > 0 {
        lemma_indexed(scene, size, upto - 1);
        let before = scene.indexed(size, upto - 1);
        if scene.health[upto - 1] > 0 {
            let object = ((upto - 1) as usize, scene.bodies[upto - 1].bounds());
            lemma_inserted(before, object, arena(size));
            lemma_inserted_settled(before, object, arena(size));
        }
    } else {
        assert(Tree::leaf().settled(arena(size)));
        assert(Tree::leaf().shaped());
        assert forall|id: usize| Tree::leaf().count(id) == 0 by {}
        assert forall|e: (usize, Rectangle)| !Tree::leaf().holds(e) by {}
    }
}

/// The candidates that the index of a scene names for body `i`, whatever
/// box is asked for: each one is another body of the scene that had
/// durability left when the index was made, none is named twice, and there
/// are no more of them than bodies.
pub proof fn lemma_candidates(scene: Scene, size: Vector, i: usize, b: Rectangle)
    requires
        scene.bodies.len() <= usize::MAX,
    ensures
        ({
            let n = scene.bodies.len() as int;
            let cands = scene.indexed(size, n).query(i, b, arena(size));
            &&& cands.len() <= n
            &&& forall|c: int|
                0 <= c < cands.len() ==> (#[trigger] cands[c]) < n && cands[c] != i
                    && scene.health[cands[c] as int] > 0
            &&& forall|c: int, d: int| 0 <= c < d < cands.len() ==> cands[c] != cands[d]
        }),
{
    let n = scene.bodies.len() as int;
    let tree = scene.indexed(size, n);
    let cands = tree.query(i, b, arena(size));
    lemma_indexed(scene, size, n);
    lemma_query_sound(tree, i, b, arena(size), i);
    assert forall|c: int| 0 <= c < cands.len() implies (#[trigger] cands[c]) < n && cands[c] != i
        && scene.health[cands[c] as int] > 0 by {
        lemma_times_index(cands, c);
        lemma_query_sound(tree, i, b, arena(size), cands[c]);
        assert(tree.count(cands[c]) >= 1);
    }
    assert forall|c: int, d: int| 0 <= c < d < cands.len() implies cands[c] != cands[d] by {
        lemma_query_sound(tree, i, b, arena(size), cands[d]);
        assert(tree.count(cands[d]) <= 1);
        lemma_times_distinct(cands, c, d);
    }
}

/// The index of a scene misses no body within the arena.
///
/// In an arena with sides that are not negative, the candidates for a box
/// include every other body that had durability left when the index was
/// made, lay within the arena then, and overlapped the box then.
pub proof fn lemma_candidates_complete(scene: Scene, size: Vector, i: usize, b: Rectangle, j: int)
    requires
        0 <= j < scene.bodies.len() <= usize::MAX,
        j != i,
        scene.health[j] > 0,
        encloses(arena(size), scene.bodies[j].bounds()),
        scene.bodies[j].bounds().overlaps(&b),
        0 <= size.x && 0 <= size.y,
    ensures
        scene.indexed(size, scene.bodies.len() as int).query(i, b, arena(size)).contains(
            j as usize,
        ),
{
    let n = scene.bodies.len() as int;
    let e = (j as usize, scene.bodies[j].bounds());
    lemma_indexed(scene, size, n);
    lemma_query_finds(scene.indexed(size, n), arena(size), i, b, e);
}

/// A snapshot depends on the scene alone: two snapshots of one scene are
/// the same.
pub proof fn lemma_snapshot_repeats(scene: Scene, first: Seq<i64>, second: Seq<i64>)
    requires
        first == scene.snapshot(scene.bodies.len() as int),
        second == scene.snapshot(scene.bodies.len() as int),
    ensures
        first == second,
{
}

/// What examining a candidate does to durability: nothing, or it takes one
/// point from each of the two bodies, of which the candidate had some left.
pub proof fn lemma_met(scene: Scene, i: int, j: int)
    requires
        scene.wf(),
        0 <= i < scene.bodies.len(),
    ensures
        scene.met(i, j).wf(),
        scene.met(i, j).bodies.len() == scene.bodies.len(),
        scene.met(i, j).health[i] >= scene.health[i] - 1,
        forall|k: int|
            0 <= k < scene.bodies.len() && k != i ==> #[trigger] scene.met(i, j).health[k]
                == scene.health[k] || (scene.health[k] > 0 && scene.met(i, j).health[k]
                == scene.health[k] - 1),
{
}

/// The candidate `j` is among `cands`.
pub open spec fn named(cands: Seq<usize>, j: int) -> bool {
    exists|c: int| 0 <= c < cands.len() && #[trigger] cands[c] as int == j
}

/// The pairs of two logs, one after the other, involve a body as often as
/// the two logs together.
proof fn lemma_involved_concat(a: Seq<(int, int)>, b: Seq<(int, int)>, k: int)
    ensures
        involved(a + b, k) == involved(a, k) + involved(b, k),
    decreases b.len(),
{
    if b.len() == 0 {
        assert(a + b =~= a);
    } else {
        assert((a + b).drop_last() =~= a + b.drop_last());
        lemma_involved_concat(a, b.drop_last(), k);
    }
}

/// What a scan does to durability, and which pairs it strikes.
///
/// The bodies stay as many.  Each body loses one point for each struck
/// pair that it is part of.  Every struck pair is made of the body that
/// scans and of a later body that is among the candidates.
pub proof fn lemma_scan(scene: Scene, i: int, cands: Seq<usize>)
    requires
        scene.wf(),
        0 <= i < scene.bodies.len(),
    ensures
        scene.scanned(i, cands).wf(),
        scene.scanned(i, cands).bodies.len() == scene.bodies.len(),
        forall|k: int|
            0 <= k < scene.bodies.len() ==> #[trigger] scene.scanned(i, cands).health[k]
                == scene.health[k] - involved(scene.scan_log(i, cands), k),
        forall|a: int|
            0 <= a < scene.scan_log(i, cands).len() ==> {
                let p = #[trigger] scene.scan_log(i, cands)[a];
                p.0 == i && i < p.1 < scene.bodies.len() && named(cands, p.1)
            },
    decreases cands.len(),
{
    if cands.len() > 0 {
        let init = cands.drop_last();
        let j = cands.last() as int;
        let before = scene.scanned(i, init);
        let log0 = scene.scan_log(i, init);
        let log = scene.scan_log(i, cands);
        lemma_scan(scene, i, init);
        assert forall|a: int| 0 <= a < log0.len() implies named(cands, (#[trigger] log0[a]).1) by {
            let c = choose|c: int| 0 <= c < init.len() && #[trigger] init[c] as int == log0[a].1;
            assert(cands[c] as int == log0[a].1);
        }
        if before.collides(i, j) {
            assert(log.drop_last() =~= log0);
            assert(cands[cands.len() - 1] as int == j);
            assert forall|a: int| 0 <= a < log.len() implies {
                let p = #[trigger] log[a];
                p.0 == i && i < p.1 < scene.bodies.len() && named(cands, p.1)
            } by {
                if a < log0.len() {
                    assert(log[a] == log0[a]);
                }
            }
        }
    }
}

/// A scan of candidates that are all different strikes no pair twice.
pub proof fn lemma_scan_distinct(scene: Scene, i: int, cands: Seq<usize>)
    requires
        scene.wf(),
        0 <= i < scene.bodies.len(),
        forall|c: int, d: int| 0 <= c < d < cands.len() ==> cands[c] != cands[d],
    ensures
        forall|a: int, b: int|
            0 <= a < b < scene.scan_log(i, cands).len() ==> scene.scan_log(i, cands)[a]
                != scene.scan_log(i, cands)[b],
    decreases cands.len(),
{
    if cands.len() > 0 {
        let init = cands.drop_last();
        let j = cands.last() as int;
        let log0 = scene.scan_log(i, init);
        let log = scene.scan_log(i, cands);
        assert forall|c: int, d: int| 0 <= c < d < init.len() implies init[c] != init[d] by {
            assert(init[c] == cands[c] && init[d] == cands[d]);
        }
        lemma_scan_distinct(scene, i, init);
        lemma_scan(scene, i, init);
        if scene.scanned(i, init).collides(i, j) {
            assert forall|a: int, b: int| 0 <= a < b < log.len() implies log[a] != log[b] by {
                assert(log[a] == log0[a]);
                if b < log0.len() {
                    assert(log[b] == log0[b]);
                } else {
                    assert(named(init, log0[a].1));
                    let c = choose|c: int|
                        0 <= c < init.len() && #[trigger] init[c] as int == log0[a].1;
                    assert(cands[c] != cands[cands.len() - 1]);
                }
            }
        }
    }
}

/// Travelling changes no durability.
pub proof fn lemma_advanced(scene: Scene, delta_time: i64, upto: int)
    requires
        scene.wf(),
        0 <= upto <= scene.bodies.len(),
    ensures
        scene.advanced(delta_time, upto).health == scene.health,
        scene.advanced(delta_time, upto).bodies.len() == scene.bodies.len(),
    decreases upto,
{
    if upto > 0 {
        lemma_advanced(scene, delta_time, upto - 1);
    }
}

/// What the turns of the first `upto` bodies do to durability, and which
/// pairs they strike.
///
/// The bodies stay as many.  Each body loses one point for each struck pair
/// that it is part of.  Every struck pair is made of a body that has had
/// its turn and of a later body, and no pair is struck twice.
pub proof fn lemma_sweep(start: Scene, size: Vector, upto: int)
    requires
        start.wf(),
        0 <= upto <= start.bodies.len() <= usize::MAX,
    ensures
        ({
            let n = start.bodies.len() as int;
            let tree = start.indexed(size, n);
            let s = start.swept(tree, size, upto);
            let log = start.sweep_log(tree, size, upto);
            &&& s.wf()
            &&& s.bodies.len() == n
            &&& forall|k: int|
                0 <= k < n ==> #[trigger] s.health[k] == start.health[k] - involved(log, k)
            &&& forall|a: int|
                0 <= a < log.len() ==> 0 <= (#[trigger] log[a]).0 < upto && log[a].0 < log[a].1
                    < n
            &&& forall|a: int, b: int| 0 <= a < b < log.len() ==> log[a] != log[b]
        }),
    decreases upto,
{
    if upto > 0 {
        let n = start.bodies.len() as int;
        let tree = start.indexed(size, n);
        let i = upto - 1;
        let before = start.swept(tree, size, i);
        let log0 = start.sweep_log(tree, size, i);
        let s = start.swept(tree, size, upto);
        let log = start.sweep_log(tree, size, upto);
        lemma_sweep(start, size, i);
        if before.health[i] > 0 {
            let cands = before.candidates(tree, size, i);
            let part = before.scan_log(i, cands);
            lemma_candidates(start, size, i as usize, before.bodies[i].bounds());
            lemma_scan(before, i, cands);
            lemma_scan_distinct(before, i, cands);
            assert forall|k: int| 0 <= k < n implies #[trigger] s.health[k] == start.health[k]
                - involved(log, k) by {
                lemma_involved_concat(log0, part, k);
            }
            assert forall|a: int| 0 <= a < log.len() implies 0 <= (#[trigger] log[a]).0 < upto
                && log[a].0 < log[a].1 < n by {
                if a < log0.len() {
                    assert(log[a] == log0[a]);
                } else {
                    assert(log[a] == part[a - log0.len()]);
                }
            }
            assert forall|a: int, b: int| 0 <= a < b < log.len() implies log[a] != log[b] by {
                if b < log0.len() {
                    assert(log[a] == log0[a] && log[b] == log0[b]);
                } else if a < log0.len() {
                    assert(log[a] == log0[a]);
                    assert(log[b] == part[b - log0.len()]);
                } else {
                    assert(log[a] == part[a - log0.len()]);
                    assert(log[b] == part[b - log0.len()]);
                }
            }
        }
    }
}

/// What one step does to durability.
///
/// The bodies stay as many.  Every struck pair is made of two different
/// bodies, the earlier one first, and no pair is struck twice in the step.
/// Each body loses one point of durability for each struck pair that it is
/// part of, and so no durability grows.
pub proof fn lemma_tick_pairs(scene: Scene, size: Vector, delta_time: i64)
    requires
        scene.wf(),
        scene.bodies.len() <= usize::MAX,
    ensures
        scene.after_tick(size, delta_time).wf(),
        scene.after_tick(size, delta_time).bodies.len() == scene.bodies.len(),
        forall|a: int|
            0 <= a < scene.tick_log(size).len() ==> 0 <= (#[trigger] scene.tick_log(size)[a]).0
                < scene.tick_log(size)[a].1 < scene.bodies.len(),
        forall|a: int, b: int|
            0 <= a < b < scene.tick_log(size).len() ==> scene.tick_log(size)[a]
                != scene.tick_log(size)[b],
        forall|k: int|
            0 <= k < scene.bodies.len() ==> #[trigger] scene.after_tick(size, delta_time).health[k]
                == scene.health[k] - involved(scene.tick_log(size), k),
        forall|k: int|
            0 <= k < scene.bodies.len() ==> #[trigger] scene.after_tick(size, delta_time).health[k]
                <= scene.health[k],
{
    let n = scene.bodies.len() as int;
    let tree = scene.indexed(size, n);
    lemma_sweep(scene, size, n);
    lemma_advanced(scene.swept(tree, size, n), delta_time, n);
}

/// Examining a candidate changes no shape, and leaves alone every body
/// that has no durability left, but for the body that examines.
pub proof fn lemma_met_frame(scene: Scene, i: int, j: int, k: int)
    requires
        scene.wf(),
        0 <= i < scene.bodies.len(),
        0 <= k < scene.bodies.len(),
    ensures
        scene.met(i, j).bodies[k].alike(&scene.bodies[k]),
        scene.health[k] <= 0 && k != i ==> scene.met(i, j).bodies[k] == scene.bodies[k]
            && scene.met(i, j).health[k] == scene.health[k],
{
}

/// A scan changes no shape, and leaves alone every body that has no
/// durability left, but for the body that scans.
pub proof fn lemma_scan_frame(scene: Scene, i: int, cands: Seq<usize>, k: int)
    requires
        scene.wf(),
        0 <= i < scene.bodies.len(),
        0 <= k < scene.bodies.len(),
    ensures
        scene.scanned(i, cands).bodies[k].alike(&scene.bodies[k]),
        scene.health[k] <= 0 && k != i ==> scene.scanned(i, cands).bodies[k] == scene.bodies[k]
            && scene.scanned(i, cands).health[k] == scene.health[k],
    decreases cands.len(),
{
    if cands.len() > 0 {
        lemma_scan_frame(scene, i, cands.drop_last(), k);
        lemma_scan(scene, i, cands.drop_last());
        lemma_met_frame(scene.scanned(i, cands.drop_last()), i, cands.last() as int, k);
    }
}

/// Being brought back changes no shape.
pub proof fn lemma_kept_alike(body: MetaObject, size: Vector)
    ensures
        kept_inside(body, size).alike(&body),
{
    reveal(kept_inside);
}

/// The turns of the first `upto` bodies change no shape, and leave alone
/// every body that has no durability left when the step begins.
pub proof fn lemma_sweep_frame(start: Scene, size: Vector, upto: int, k: int)
    requires
        start.wf(),
        0 <= upto <= start.bodies.len() <= usize::MAX,
        0 <= k < start.bodies.len(),
    ensures
        ({
            let tree = start.indexed(size, start.bodies.len() as int);
            let s = start.swept(tree, size, upto);
            &&& s.bodies[k].alike(&start.bodies[k])
            &&& start.health[k] <= 0 ==> s.bodies[k] == start.bodies[k] && s.health[k]
                == start.health[k]
        }),
    decreases upto,
{
    if upto > 0 {
        let tree = start.indexed(size, start.bodies.len() as int);
        let i = upto - 1;
        let before = start.swept(tree, size, i);
        lemma_sweep_frame(start, size, i, k);
        lemma_sweep(start, size, i);
        if before.health[i] > 0 {
            let cands = before.candidates(tree, size, i);
            lemma_scan_frame(before, i, cands, k);
            lemma_scan(before, i, cands);
            lemma_kept_alike(before.scanned(i, cands).bodies[i], size);
        }
    }
}

/// Travelling changes no shape, and leaves alone every body that has no
/// durability left.
pub proof fn lemma_advanced_frame(scene: Scene, delta_time: i64, upto: int, k: int)
    requires
        scene.wf(),
        0 <= upto <= scene.bodies.len(),
        0 <= k < scene.bodies.len(),
    ensures
        scene.advanced(delta_time, upto).bodies[k].alike(&scene.bodies[k]),
        scene.health[k] <= 0 ==> scene.advanced(delta_time, upto).bodies[k] == scene.bodies[k],
    decreases upto,
{
    if upto > 0 {
        lemma_advanced_frame(scene, delta_time, upto - 1, k);
        lemma_advanced(scene, delta_time, upto - 1);
    }
}

/// A step changes the shape of no body, and leaves alone every body that
/// has no durability left when the step begins: such a body stays where it
/// is, keeps its speed, and keeps its durability.
pub proof fn lemma_tick_frame(scene: Scene, size: Vector, delta_time: i64, k: int)
    requires
        scene.wf(),
        0 <= k < scene.bodies.len() <= usize::MAX,
    ensures
        scene.after_tick(size, delta_time).bodies[k].alike(&scene.bodies[k]),
        scene.health[k] <= 0 ==> scene.after_tick(size, delta_time).bodies[k] == scene.bodies[k]
            && scene.after_tick(size, delta_time).health[k] == scene.health[k],
{
    let n = scene.bodies.len() as int;
    let tree = scene.indexed(size, n);
    lemma_sweep_frame(scene, size, n, k);
    lemma_sweep(scene, size, n);
    lemma_advanced_frame(scene.swept(tree, size, n), delta_time, n, k);
    lemma_advanced(scene.swept(tree, size, n), delta_time, n);
}

/// The body can be brought back into an arena of the given size: it is
/// movable, its box is not larger than the arena, and the body and the
/// arena are within `LIMIT`.
pub open spec fn fits(body: MetaObject, size: Vector) -> bool {
    &&& body.movable()
    &&& body.tame()
    &&& tame(size.x) && tame(size.y)
    &&& 0 <= body.bounds().size.x <= size.x
    &&& 0 <= body.bounds().size.y <= size.y
}

/// A body that fits the arena lies within the arena once it has been
/// brought back.
pub proof fn lemma_kept_inside(body: MetaObject, size: Vector)
    requires
        fits(body, size),
    ensures
        encloses(arena(size), kept_inside(body, size).bounds()),
        fits(kept_inside(body, size), size),
{
    reveal(kept_inside);
}

/// Examining a candidate leaves every earlier body as it is.
pub proof fn lemma_met_before(scene: Scene, i: int, j: int, k: int)
    requires
        scene.wf(),
        0 <= k < i < scene.bodies.len(),
    ensures
        scene.met(i, j).bodies[k] == scene.bodies[k],
{
}

/// A scan leaves every earlier body as it is.
pub proof fn lemma_scan_before(scene: Scene, i: int, cands: Seq<usize>, k: int)
    requires
        scene.wf(),
        0 <= k < i < scene.bodies.len(),
    ensures
        scene.scanned(i, cands).bodies[k] == scene.bodies[k],
    decreases cands.len(),
{
    if cands.len() > 0 {
        lemma_scan_before(scene, i, cands.drop_last(), k);
        lemma_scan(scene, i, cands.drop_last());
        lemma_met_before(scene.scanned(i, cands.drop_last()), i, cands.last() as int, k);
    }
}

/// The turns after that of body `k` leave body `k` as it is.
pub proof fn lemma_sweep_before(start: Scene, size: Vector, k: int, upto: int)
    requires
        start.wf(),
        0 <= k < upto <= start.bodies.len() <= usize::MAX,
    ensures
        ({
            let tree = start.indexed(size, start.bodies.len() as int);
            start.swept(tree, size, upto).bodies[k] == start.swept(tree, size, k + 1).bodies[k]
        }),
    decreases upto,
{
    if upto > k + 1 {
        let tree = start.indexed(size, start.bodies.len() as int);
        let i = upto - 1;
        let before = start.swept(tree, size, i);
        lemma_sweep_before(start, size, k, i);
        lemma_sweep(start, size, i);
        if before.health[i] > 0 {
            lemma_scan_before(before, i, before.candidates(tree, size, i), k);
            lemma_scan(before, i, before.candidates(tree, size, i));
        }
    }
}

/// Travelling for no time leaves every body where it is.
pub proof fn lemma_advanced_still(scene: Scene, upto: int, k: int)
    requires
        scene.wf(),
        0 <= upto <= scene.bodies.len(),
        0 <= k < scene.bodies.len(),
    ensures
        scene.advanced(0, upto).bodies[k].bounds() == scene.bodies[k].bounds(),
    decreases upto,
{
    if upto > 0 {
        lemma_advanced_still(scene, upto - 1, k);
        lemma_advanced(scene, 0, upto - 1);
    }
}

/// A body that has its turn in a step, and that fits the arena when it is
/// brought back, lies within the arena when all turns are over; and it
/// still does after the step, if the step takes no time.
///
/// A step that takes time lets the body travel after it has been brought
/// back, and so may end with the body past a side of the arena.
pub proof fn lemma_tick_inside(scene: Scene, size: Vector, k: int)
    requires
        scene.wf(),
        0 <= k < scene.bodies.len() <= usize::MAX,
        ({
            let tree = scene.indexed(size, scene.bodies.len() as int);
            let turn = scene.swept(tree, size, k);
            turn.health[k] > 0 && fits(
                turn.scanned(k, turn.candidates(tree, size, k)).bodies[k],
                size,
            )
        }),
    ensures
        ({
            let n = scene.bodies.len() as int;
            let tree = scene.indexed(size, n);
            &&& encloses(arena(size), scene.swept(tree, size, n).bodies[k].bounds())
            &&& encloses(arena(size), scene.after_tick(size, 0).bodies[k].bounds())
        }),
{
    let n = scene.bodies.len() as int;
    let tree = scene.indexed(size, n);
    let turn = scene.swept(tree, size, k);
    let cands = turn.candidates(tree, size, k);
    lemma_sweep(scene, size, k);
    lemma_scan(turn, k, cands);
    lemma_kept_inside(turn.scanned(k, cands).bodies[k], size);
    lemma_sweep_before(scene, size, k, n);
    lemma_sweep(scene, size, n);
    lemma_advanced_still(scene.swept(tree, size, n), n, k);
}

/// A candidate is struck exactly if it collides when it is examined.
///
/// In a scan of candidates that are all different, the pair of the body
/// that scans and of candidate `c` is in the log exactly if the two collide
/// in the scene as it is after the candidates before `c`.
pub proof fn lemma_scan_examined(scene: Scene, i: int, cands: Seq<usize>, c: int)
    requires
        scene.wf(),
        0 <= i < scene.bodies.len(),
        0 <= c < cands.len(),
        forall|a: int, b: int| 0 <= a < b < cands.len() ==> cands[a] != cands[b],
    ensures
        scene.scan_log(i, cands).contains((i, cands[c] as int)) <==> scene.scanned(
            i,
            cands.take(c),
        ).collides(i, cands[c] as int),
    decreases cands.len(),
{
    let init = cands.drop_last();
    let last = cands.len() - 1;
    let j = cands[c] as int;
    let log0 = scene.scan_log(i, init);
    let log = scene.scan_log(i, cands);
    let struck = scene.scanned(i, init).collides(i, cands.last() as int);
    lemma_scan(scene, i, init);
    if c == last {
        assert(cands.take(c) =~= init);
        // The candidates before the last one are other bodies.
        if log0.contains((i, j)) {
            let a = choose|a: int| 0 <= a < log0.len() && log0[a] == (i, j);
            assert(named(init, log0[a].1));
            let d = choose|d: int| 0 <= d < init.len() && #[trigger] init[d] as int == j;
            assert(cands[d] != cands[last]);
        }
        if struck {
            assert(log[log.len() - 1] == (i, j));
        } else {
            assert(log == log0);
        }
    } else {
        assert forall|a: int, b: int| 0 <= a < b < init.len() implies init[a] != init[b] by {
            assert(init[a] == cands[a] && init[b] == cands[b]);
        }
        lemma_scan_examined(scene, i, init, c);
        assert(init.take(c) =~= cands.take(c));
        assert(init[c] == cands[c]);
        assert(cands[c] != cands[last]);
        if struck {
            assert(log.drop_last() =~= log0);
            if log0.contains((i, j)) {
                let a = choose|a: int| 0 <= a < log0.len() && log0[a] == (i, j);
                assert(log[a] == (i, j));
            }
            if log.contains((i, j)) {
                let a = choose|a: int| 0 <= a < log.len() && log[a] == (i, j);
                assert(a < log0.len());
                assert(log0[a] == (i, j));
            }
        }
    }
}

/// The pairs that body `i` leads are struck in its own turn: such a pair is
/// in the log of the first `upto` turns, for `upto` past `i`, exactly if
/// body `i` has a turn and the pair is in the log of its scan.
pub proof fn lemma_sweep_turn(start: Scene, size: Vector, i: int, upto: int, j: int)
    requires
        start.wf(),
        0 <= i < upto <= start.bodies.len() <= usize::MAX,
    ensures
        ({
            let tree = start.indexed(size, start.bodies.len() as int);
            let turn = start.swept(tree, size, i);
            start.sweep_log(tree, size, upto).contains((i, j)) <==> turn.health[i] > 0
                && turn.scan_log(i, turn.candidates(tree, size, i)).contains((i, j))
        }),
    decreases upto,
{
    let tree = start.indexed(size, start.bodies.len() as int);
    let k = upto - 1;
    let before = start.swept(tree, size, k);
    let log0 = start.sweep_log(tree, size, k);
    let log = start.sweep_log(tree, size, upto);
    lemma_sweep(start, size, k);
    if k > i {
        lemma_sweep_turn(start, size, i, k, j);
    } else {
        // No earlier turn is led by body `i`.
        if log0.contains((i, j)) {
            let a = choose|a: int| 0 <= a < log0.len() && log0[a] == (i, j);
            assert(log0[a].0 < k);
        }
    }
    if before.health[k] > 0 {
        let part = before.scan_log(k, before.candidates(tree, size, k));
        lemma_scan(before, k, before.candidates(tree, size, k));
        if log.contains((i, j)) {
            let a = choose|a: int| 0 <= a < log.len() && log[a] == (i, j);
            if a < log0.len() {
                assert(log0[a] == (i, j));
            } else {
                assert(part[a - log0.len()] == (i, j));
            }
        }
        if log0.contains((i, j)) {
            let a = choose|a: int| 0 <= a < log0.len() && log0[a] == (i, j);
            assert(log[a] == (i, j));
        }
        if part.contains((i, j)) {
            let a = choose|a: int| 0 <= a < part.len() && part[a] == (i, j);
            assert(log[log0.len() + a] == (i, j));
        }
    }
}

/// A step does not pass over a pair within the arena.
///
/// Let body `i` have its turn, and let a later body `j` have had durability
/// left and lain within the arena when the step began, with its box there
/// overlapping the box of `i` at the turn.  In an arena with sides that are
/// not negative, `j` is then among the candidates of `i`, at the place that
/// is returned, and the pair is struck in the step exactly if the two
/// collide when `j` is examined.
pub proof fn lemma_tick_strikes(start: Scene, size: Vector, i: int, j: int) -> (c: int)
    requires
        start.wf(),
        0 <= i < j < start.bodies.len() <= usize::MAX,
        0 <= size.x && 0 <= size.y,
        start.health[j] > 0,
        encloses(arena(size), start.bodies[j].bounds()),
        ({
            let tree = start.indexed(size, start.bodies.len() as int);
            let turn = start.swept(tree, size, i);
            turn.health[i] > 0 && start.bodies[j].bounds().overlaps(&turn.bodies[i].bounds())
        }),
    ensures
        ({
            let tree = start.indexed(size, start.bodies.len() as int);
            let turn = start.swept(tree, size, i);
            let cands = turn.candidates(tree, size, i);
            &&& 0 <= c < cands.len()
            &&& cands[c] == j
            &&& start.tick_log(size).contains((i, j)) <==> turn.scanned(i, cands.take(c)).collides(
                i,
                j,
            )
        }),
{
    let n = start.bodies.len() as int;
    let tree = start.indexed(size, n);
    let turn = start.swept(tree, size, i);
    let cands = turn.candidates(tree, size, i);
    lemma_sweep(start, size, i);
    lemma_candidates(start, size, i as usize, turn.bodies[i].bounds());
    lemma_candidates_complete(start, size, i as usize, turn.bodies[i].bounds(), j);
    let c = choose|c: int| 0 <= c < cands.len() && cands[c] == j as usize;
    lemma_scan_examined(turn, i, cands, c);
    lemma_sweep_turn(start, size, i, n, j);
    c
}

/// Bodies without durability have no turn: while none of the first `upto`
/// bodies has durability left, their turns change nothing and strike no
/// pair.
pub proof fn lemma_sweep_idle(start: Scene, tree: Tree, size: Vector, upto: int)
    requires
        0 <= upto <= start.bodies.len(),
        forall|k: int| 0 <= k < upto ==> start.health[k] <= 0,
    ensures
        start.swept(tree, size, upto) == start,
        start.sweep_log(tree, size, upto) =~= Seq::<(int, int)>::empty(),
    decreases upto,
{
    if upto > 0 {
        lemma_sweep_idle(start, tree, size, upto - 1);
    }
}

/// Every struck pair is made of two bodies that had durability left when
/// the step began.
pub proof fn lemma_sweep_alive(start: Scene, size: Vector, upto: int)
    requires
        start.wf(),
        0 <= upto <= start.bodies.len() <= usize::MAX,
    ensures
        ({
            let log = start.sweep_log(tree_of(start, size), size, upto);
            forall|a: int|
                0 <= a < log.len() ==> start.health[(#[trigger] log[a]).0] > 0
                    && start.health[log[a].1] > 0
        }),
    decreases upto,
{
    if upto > 0 {
        let tree = tree_of(start, size);
        let i = upto - 1;
        let before = start.swept(tree, size, i);
        let log0 = start.sweep_log(tree, size, i);
        let log = start.sweep_log(tree, size, upto);
        lemma_sweep_alive(start, size, i);
        lemma_sweep(start, size, i);
        if before.health[i] > 0 {
            let cands = before.candidates(tree, size, i);
            let part = before.scan_log(i, cands);
            lemma_candidates(start, size, i as usize, before.bodies[i].bounds());
            lemma_scan(before, i, cands);
            assert forall|a: int| 0 <= a < log.len() implies start.health[(#[trigger] log[a]).0]
                > 0 && start.health[log[a].1] > 0 by {
                if a < log0.len() {
                    assert(log[a] == log0[a]);
                } else {
                    let p = part[a - log0.len()];
                    assert(log[a] == p);
                    assert(named(cands, p.1));
                    let d = choose|d: int|
                        0 <= d < cands.len() && #[trigger] cands[d] as int == p.1;
                    assert(start.health[cands[d] as int] > 0);
                }
            }
        }
    }
}

/// The index of a scene in an arena of the given size.
pub open spec fn tree_of(scene: Scene, size: Vector) -> Tree {
    scene.indexed(size, scene.bodies.len() as int)
}

/// Two bodies alone that collide are struck once.
///
/// Let `i` and a later `j` be the only bodies with durability left, let
/// them collide, and let `j` lie within an arena with sides that are not
/// negative.  Then the step strikes this pair and no other, and it costs
/// each of the two one point of durability.
pub proof fn lemma_tick_lone_pair(start: Scene, size: Vector, delta_time: i64, i: int, j: int)
    requires
        start.wf(),
        0 <= i < j < start.bodies.len() <= usize::MAX,
        0 <= size.x && 0 <= size.y,
        forall|k: int| 0 <= k < start.bodies.len() ==> (start.health[k] > 0 <==> k == i || k == j),
        encloses(arena(size), start.bodies[j].bounds()),
        start.collides(i, j),
    ensures
        start.tick_log(size) =~= seq![(i, j)],
        start.after_tick(size, delta_time).health[i] == start.health[i] - 1,
        start.after_tick(size, delta_time).health[j] == start.health[j] - 1,
{
    let n = start.bodies.len() as int;
    let tree = tree_of(start, size);
    let log = start.tick_log(size);
    lemma_sweep_idle(start, tree, size, i);
    let cands = start.candidates(tree, size, i);
    lemma_candidates(start, size, i as usize, start.bodies[i].bounds());
    let c = lemma_tick_strikes(start, size, i, j);
    if c > 0 {
        assert(cands[0] == j);
        assert(cands[0] != cands[c]);
    }
    assert(cands.take(0) =~= Seq::<usize>::empty());
    assert(log.contains((i, j)));
    lemma_sweep(start, size, n);
    lemma_sweep_alive(start, size, n);
    assert forall|a: int| 0 <= a < log.len() implies #[trigger] log[a] == (i, j) by {}
    let at = choose|a: int| 0 <= a < log.len() && log[a] == (i, j);
    if log.len() > 1 {
        assert(log[0] == log[1]);
    }
    assert(log =~= seq![(i, j)]);
    lemma_tick_pairs(start, size, delta_time);
    reveal_with_fuel(involved, 3);
    assert(log.drop_last() =~= Seq::<(int, int)>::empty());
}

/// What travelling does to one body: it travels if it is among the first
/// `upto` bodies and has durability left, and stays as it is if not.
pub proof fn lemma_advanced_body(scene: Scene, delta_time: i64, upto: int, k: int)
    requires
        scene.wf(),
        0 <= upto <= scene.bodies.len(),
        0 <= k < scene.bodies.len(),
    ensures
        scene.advanced(delta_time, upto).bodies[k] == if k < upto && scene.health[k] > 0 {
            scene.bodies[k].ticked(delta_time)
        } else {
            scene.bodies[k]
        },
    decreases upto,
{
    if upto > 0 {
        lemma_advanced_body(scene, delta_time, upto - 1, k);
        lemma_advanced(scene, delta_time, upto - 1);
    }
}

/// A body within the arena travels no farther past a side of the arena
/// than it travels at all: its box then lies within the arena widened by
/// the way that it travels, to both sides, on each axis.
pub proof fn lemma_ticked_near(body: MetaObject, size: Vector, delta_time: i64)
    requires
        fits(body, size),
        encloses(arena(size), body.bounds()),
        tame(prod(body.velocity().x, delta_time)),
        tame(prod(body.velocity().y, delta_time)),
    ensures
        body.ticked(delta_time).velocity() == body.velocity(),
        ({
            let after = body.ticked(delta_time);
            let way = body.velocity().scaled(delta_time);
            &&& -magnitude(way.x as int) <= after.bounds().left()
            &&& after.bounds().right() <= size.x + magnitude(way.x as int)
            &&& -magnitude(way.y as int) <= after.bounds().top()
            &&& after.bounds().bottom() <= size.y + magnitude(way.y as int)
        }),
{
}

/// A body that has its turn in a step, and that fits the arena when it is
/// brought back, ends the step no farther past a side of the arena than it
/// travels in the step.
///
/// The way that the body travels is its speed after the turns, times the
/// duration; it has to be within `LIMIT`.  The box of the body then lies
/// within the arena widened by that way, to both sides, on each axis.
pub proof fn lemma_tick_near(scene: Scene, size: Vector, delta_time: i64, k: int)
    requires
        scene.wf(),
        0 <= k < scene.bodies.len() <= usize::MAX,
        ({
            let tree = tree_of(scene, size);
            let turn = scene.swept(tree, size, k);
            let speed = scene.swept(tree, size, scene.bodies.len() as int).bodies[k].velocity();
            &&& turn.health[k] > 0
            &&& fits(turn.scanned(k, turn.candidates(tree, size, k)).bodies[k], size)
            &&& tame(prod(speed.x, delta_time)) && tame(prod(speed.y, delta_time))
        }),
    ensures
        ({
            let after = scene.after_tick(size, delta_time).bodies[k];
            let way = after.velocity().scaled(delta_time);
            &&& -magnitude(way.x as int) <= after.bounds().left()
            &&& after.bounds().right() <= size.x + magnitude(way.x as int)
            &&& -magnitude(way.y as int) <= after.bounds().top()
            &&& after.bounds().bottom() <= size.y + magnitude(way.y as int)
        }),
{
    let n = scene.bodies.len() as int;
    let tree = tree_of(scene, size);
    let turn = scene.swept(tree, size, k);
    let cands = turn.candidates(tree, size, k);
    let s = scene.swept(tree, size, n);
    lemma_sweep(scene, size, k);
    lemma_scan(turn, k, cands);
    lemma_kept_inside(turn.scanned(k, cands).bodies[k], size);
    lemma_sweep_before(scene, size, k, n);
    lemma_sweep(scene, size, n);
    lemma_advanced_body(s, delta_time, n, k);
    assert(fits(s.bodies[k], size));
    assert(encloses(arena(size), s.bodies[k].bounds()));
    lemma_ticked_near(s.bodies[k], size, delta_time);
}

} // verus!
