//! The world: all bodies, and the step that moves them.
//!
//! `World` holds the state that a `Scene` describes, and `tick` computes
//! exactly what `Scene::after_tick` says.
use crate::fixed::{
    fx_from_isize, fx_from_usize, fx_mul, fx_neg, fx_sub, whole, HALF, MINUS_HALF, MINUS_TWO, ONE,
    THREE, TWO,
};
use crate::geometry::{Rectangle, Vector};
use crate::object::MetaObject;
use crate::quad_tree::QuadTree;
use crate::scene::{
    arena, coordinates, impulse, kept_inside, lemma_candidates, lemma_met, lemma_tick_frame,
    lemma_tick_pairs, record, Scene, DURABILITY, EPSILON,
};
use vstd::prelude::*;

verus! {

/// The durabilities as the integers that they are.
pub open spec fn levels(health: Seq<isize>) -> Seq<int> {
    health.map_values(|h: isize| h as int)
}

/// A bounded arena with its bodies.
pub struct World {
    objects: Vec<MetaObject>,
    ticked: Vec<bool>,
    health: Vec<isize>,
    tick: bool,
    size: Vector,
}

/// The change of speed of a body that travels at `speed` and takes part in
/// a collision with the push `push`.
pub fn rebound(push: Vector, speed: Vector) -> (kick: Vector)
    ensures
        kick == impulse(push, speed),
{
    reveal(impulse);
    let push_norm = push.norm();
    let collision_speed: i64 = push_norm.dot(&speed);
    push_norm * fx_mul(MINUS_TWO, collision_speed)
}

/// Brings `body` back into an arena of the given size.
pub fn keep_inside(body: &mut MetaObject, size: Vector)
    ensures
        *final(body) == kept_inside(*old(body), size),
{
    reveal(kept_inside);
    let aabb = body.aabb();
    let speed = body.speed();
    let mut kick = Vector::zero();
    let mut mov = Vector::zero();
    if aabb.left() < 0 {
        kick.x = fx_mul(speed.x, MINUS_TWO);
        mov.x = fx_neg(aabb.left());
    }
    if aabb.right() > size.x {
        kick.x = fx_mul(speed.x, MINUS_TWO);
        mov.x = fx_sub(size.x, aabb.right());
    }
    if aabb.top() < 0 {
        kick.y = fx_mul(speed.y, MINUS_TWO);
        mov.y = fx_neg(aabb.top());
    }
    if aabb.bottom() > size.y {
        kick.y = fx_mul(speed.y, MINUS_TWO);
        mov.y = fx_sub(size.y, aabb.bottom());
    }
    body.kick(kick);
    body.mov(mov);
}

impl World {
    /// The state of the world.
    pub closed spec fn view(&self) -> Scene {
        Scene { bodies: self.objects@, health: levels(self.health@) }
    }

    /// The size of the arena.
    pub closed spec fn arena_size(&self) -> Vector {
        self.size
    }

    /// The world is in a step in which the first `upto` bodies have had
    /// their turn: every body has its durability and its mark, the mark is
    /// set for the bodies that have had their turn and for no other, the
    /// bodies can be counted in an `isize`, and no durability is further
    /// below zero than there are bodies.
    spec fn turning(&self, upto: int) -> bool {
        &&& self.ticked@.len() == self.objects@.len()
        &&& self.health@.len() == self.objects@.len()
        &&& self.objects@.len() <= isize::MAX
        &&& forall|k: int|
            0 <= k < self.ticked@.len() ==> (self.ticked@[k] == self.tick <==> k < upto)
        &&& forall|k: int|
            0 <= k < self.health@.len() ==> self.health@[k] + self.objects@.len() >= 0
    }

    /// The two worlds have the same arena, the same number of bodies, and
    /// the same marks.
    spec fn same_marks(&self, other: &World) -> bool {
        &&& self.ticked == other.ticked
        &&& self.tick == other.tick
        &&& self.size == other.size
        &&& self.objects@.len() == other.objects@.len()
        &&& self.health@.len() == other.health@.len()
    }

    /// The world is between two steps: every body has its durability, no
    /// body is marked as having had its turn, the bodies can be counted in
    /// an `isize`, and no durability is further below zero than there are
    /// bodies.
    pub closed spec fn wf(&self) -> bool {
        self.turning(0)
    }

    /// An empty arena of the given size.
    pub fn new(width: i64, height: i64) -> (w: Self)
        ensures
            w.wf(),
            w@.bodies.len() == 0,
            w@.health.len() == 0,
            w.arena_size() == (Vector { x: width, y: height }),
    {
        let w = Self {
            ticked: Vec::new(),
            health: Vec::new(),
            tick: true,
            objects: Vec::new(),
            size: Vector::new(width, height),
        };
        assert(w@.health =~= Seq::empty());
        w
    }

    /// The number of bodies, with or without durability left.
    pub fn len(&self) -> (n: usize)
        ensures
            n == self@.bodies.len(),
    {
        self.objects.len()
    }

    /// The body with the id `idx`, if there is one.
    pub fn object(&self, idx: usize) -> (r: Option<&MetaObject>)
        ensures
            idx < self@.bodies.len() ==> r == Some(&self@.bodies[idx as int]),
            idx >= self@.bodies.len() ==> r is None,
    {
        if idx < self.objects.len() {
            Some(&self.objects[idx])
        } else {
            None
        }
    }

    /// The durability of the body with the id `idx`, if there is one.
    pub fn durability(&self, idx: usize) -> (r: Option<isize>)
        requires
            self.wf(),
        ensures
            idx < self@.bodies.len() ==> r is Some && r->0 == self@.health[idx as int],
            idx >= self@.bodies.len() ==> r is None,
    {
        if idx < self.objects.len() {
            Some(self.health[idx])
        } else {
            None
        }
    }

    /// Adds a body with the durability `DURABILITY`, as the last one.
    ///
    /// Returns `false`, without adding it, when the world holds as many
    /// bodies as an `isize` can count.
    pub fn add(&mut self, object: MetaObject) -> (added: bool)
        requires
            old(self).wf(),
        ensures
            final(self).wf(),
            final(self).arena_size() == old(self).arena_size(),
            added == (old(self)@.bodies.len() < isize::MAX),
            added ==> final(self)@.bodies == old(self)@.bodies.push(object) && final(self)@.health
                == old(self)@.health.push(DURABILITY as int),
            !added ==> final(self)@ == old(self)@,
    {
        if self.objects.len() >= isize::MAX as usize {
            return false;
        }
        self.objects.push(object);
        self.ticked.push(!self.tick);
        self.health.push(DURABILITY);
        assert(self@.health =~= old(self)@.health.push(DURABILITY as int));
        true
    }

    /// The tree over the arena that indexes the boxes of all bodies with
    /// durability left.
    fn index(&self) -> (quad_tree: QuadTree)
        requires
            self.wf(),
        ensures
            quad_tree.wf(),
            quad_tree.region() == arena(self.arena_size()),
            quad_tree.tree() == self@.indexed(self.arena_size(), self@.bodies.len() as int),
    {
        let mut quad_tree = QuadTree::new(Rectangle::new_vec(Vector::zero(), self.size));
        let mut id: usize = 0;
        while id < self.objects.len()
            invariant
                id <= self.objects.len(),
                self.health@.len() == self.objects@.len(),
                quad_tree.wf(),
                quad_tree.region() == arena(self.size),
                quad_tree.tree() == self@.indexed(self.size, id as int),
            decreases self.objects.len() - id,
        {
            if self.health[id] > 0 {
                quad_tree.insert(id, self.objects[id].aabb());
            }
            id = id + 1;
        }
        quad_tree
    }

    /// The shape of the index, as a stream of tags.
    pub fn export_quad_tree(&self) -> (r: Vec<i64>)
        requires
            self.wf(),
        ensures
            r@ == self@.indexed(self.arena_size(), self@.bodies.len() as int).tags(),
    {
        let quad_tree = self.index();
        let mut vec: Vec<i64> = Vec::new();
        quad_tree.export(&mut vec);
        vec
    }

    /// The records of all bodies with durability left, in order.
    pub fn export(&self) -> (r: Vec<i64>)
        requires
            self.wf(),
        ensures
            r@ == self@.snapshot(self@.bodies.len() as int),
    {
        let mut vec: Vec<i64> = Vec::new();
        let mut idx: usize = 0;
        while idx < self.objects.len()
            invariant
                idx <= self.objects.len(),
                self.health@.len() == self.objects@.len(),
                vec@ == self@.snapshot(idx as int),
            decreases self.objects.len() - idx,
        {
            let health: isize = self.health[idx];
            if health > 0 {
                let ghost before = vec@;
                match &self.objects[idx] {
                    MetaObject::Rect(rect) => {
                        vec.push(ONE);
                        vec.push(fx_from_isize(health));
                        vec.push(rect.left());
                        vec.push(rect.top());
                        vec.push(rect.shape.size.x);
                        vec.push(rect.shape.size.y);
                    },
                    MetaObject::Circle(circle) => {
                        vec.push(TWO);
                        vec.push(fx_from_isize(health));
                        vec.push(circle.center.x);
                        vec.push(circle.center.y);
                        vec.push(circle.radius);
                    },
                    MetaObject::Poly(poly) => {
                        vec.push(THREE);
                        vec.push(fx_from_isize(health));
                        vec.push(fx_from_usize(poly.points_len()));
                        let points = poly.points();
                        let mut k: usize = 0;
                        while k < points.len()
                            invariant
                                k <= points.len(),
                                points@ == poly.vertices(),
                                vec@ == before + seq![
                                    THREE,
                                    whole(health as int),
                                    whole(poly.points@.len() as int),
                                ] + coordinates(points@.take(k as int)),
                            decreases points.len() - k,
                        {
                            proof {
                                let next = points@.take(k + 1);
                                assert(next.drop_last() =~= points@.take(k as int));
                                assert(next.last() == points@[k as int]);
                            }
                            vec.push(points[k].x);
                            vec.push(points[k].y);
                            assert(vec@ =~= before + seq![
                                THREE,
                                whole(health as int),
                                whole(poly.points@.len() as int),
                            ] + coordinates(points@.take(k + 1)));
                            k = k + 1;
                        }
                        assert(points@.take(k as int) =~= points@);
                        let aabb = poly.aabb();
                        vec.push(aabb.left());
                        vec.push(aabb.top());
                        vec.push(aabb.size.x);
                        vec.push(aabb.size.y);
                    },
                }
                assert(vec@ =~= before + record(self.objects@[idx as int], health as int));
            }
            idx = idx + 1;
        }
        vec
    }

    /// Lets bodies `i` and `j` collide with the push `vector`.
    fn strike(&mut self, i: usize, j: usize, vector: Vector)
        requires
            i < j < old(self).objects@.len(),
            old(self).turning(i + 1),
            old(self).health@[j as int] > 0,
        ensures
            final(self)@ == old(self)@.struck(i as int, j as int, vector),
            final(self).same_marks(old(self)),
    {
        let a_kick = rebound(vector, self.objects[i].speed());
        let b_kick = rebound(vector, self.objects[j].speed());

        self.objects[i].kick(a_kick);
        self.objects[i].mov(vector * MINUS_HALF);

        self.objects[j].kick(b_kick);
        self.objects[j].mov(vector * HALF);

        self.health[i] = self.health[i] - 1;
        self.health[j] = self.health[j] - 1;
        assert(self@.bodies =~= old(self)@.struck(i as int, j as int, vector).bodies);
        assert(self@.health =~= old(self)@.struck(i as int, j as int, vector).health);
    }

    /// Lets body `i` examine the candidate `j`.
    fn meet(&mut self, i: usize, j: usize)
        requires
            i < old(self).objects@.len(),
            j < old(self).objects@.len(),
            old(self).turning(i + 1),
        ensures
            final(self)@ == old(self)@.met(i as int, j as int),
            final(self).same_marks(old(self)),
    {
        if self.ticked[j] == self.tick {
            return ;
        }
        if self.health[j] <= 0 {
            return ;
        }
        if !self.objects[i].aabb().collides_with(&self.objects[j].aabb()) {
            return ;
        }
        let collision = self.objects[i].collides_with(&self.objects[j]);

        if let Some(vector) = collision {
            if vector.len() > EPSILON {
                self.strike(i, j, vector);
            }
        }
    }

    /// Lets body `i` examine the candidates `cands`, in order.
    fn scan(&mut self, i: usize, cands: &Vec<usize>)
        requires
            i < old(self).objects@.len(),
            old(self).turning(i + 1),
            old(self).health@[i as int] >= 1,
            cands@.len() <= old(self).objects@.len(),
            forall|d: int|
                0 <= d < cands@.len() ==> (#[trigger] cands@[d]) < old(self).objects@.len(),
        ensures
            final(self)@ == old(self)@.scanned(i as int, cands@),
            final(self).same_marks(old(self)),
            final(self).turning(i + 1),
    {
        let ghost n = self.objects@.len();
        let mut c: usize = 0;
        while c < cands.len()
            invariant
                c <= cands.len() <= n,
                i < n,
                n == self.objects@.len(),
                self.same_marks(old(self)),
                self.turning(i + 1),
                self.health@[i as int] + c >= 1,
                forall|d: int| 0 <= d < cands@.len() ==> (#[trigger] cands@[d]) < n,
                self@ == old(self)@.scanned(i as int, cands@.take(c as int)),
            decreases cands.len() - c,
        {
            proof {
                let next = cands@.take(c + 1);
                assert(next.drop_last() =~= cands@.take(c as int));
                assert(next.last() == cands@[c as int]);
            }
            let ghost before = self@;
            let ghost health = self.health@;
            self.meet(i, cands[c]);
            proof {
                lemma_met(before, i as int, cands@[c as int] as int);
                let after = before.met(i as int, cands@[c as int] as int);
                assert forall|k: int| 0 <= k < n implies self.health@[k] + n >= 0
                    && self.health@[i as int] + c + 1 >= 1 by {
                    assert(self@.health[k] == self.health@[k]);
                    assert(before.health[k] == health[k]);
                    assert(self@.health[i as int] == self.health@[i as int]);
                    assert(before.health[i as int] == health[i as int]);
                    assert(k != i ==> after.health[k] == before.health[k] || (before.health[k]
                        > 0 && after.health[k] == before.health[k] - 1));
                }
            }
            c = c + 1;
        }
        assert(cands@.take(c as int) =~= cands@);
    }

    /// Gives body `i` its turn, with the index `quad_tree` of the scene
    /// that the step began with.
    fn visit(&mut self, quad_tree: &QuadTree, i: usize, Ghost(start): Ghost<Scene>)
        requires
            i < old(self).objects@.len(),
            old(self).turning(i as int),
            start.bodies.len() == old(self).objects@.len(),
            quad_tree.wf(),
            quad_tree.region() == arena(old(self).size),
            quad_tree.tree() == start.indexed(old(self).size, start.bodies.len() as int),
        ensures
            final(self)@ == old(self)@.visited(quad_tree.tree(), old(self).size, i as int),
            final(self).tick == old(self).tick,
            final(self).size == old(self).size,
            final(self).objects@.len() == old(self).objects@.len(),
            final(self).turning(i + 1),
    {
        self.ticked[i] = self.tick;
        if self.health[i] <= 0 {
            return ;
        }
        let cands = quad_tree.might_collide(i, self.objects[i].aabb());
        proof {
            lemma_candidates(start, self.size, i, self@.bodies[i as int].bounds());
        }
        self.scan(i, &cands);
        keep_inside(&mut self.objects[i], self.size);
        assert(self@.bodies =~= old(self)@.visited(
            quad_tree.tree(),
            old(self).size,
            i as int,
        ).bodies);
    }

    /// Advances the world by one step of `delta_time`.
    pub fn tick(&mut self, delta_time: i64)
        requires
            old(self).wf(),
        ensures
            final(self).wf(),
            final(self).arena_size() == old(self).arena_size(),
            final(self)@ == old(self)@.after_tick(old(self).arena_size(), delta_time),
            final(self)@.bodies.len() == old(self)@.bodies.len(),
            forall|k: int|
                0 <= k < old(self)@.bodies.len() ==> #[trigger] final(self)@.health[k]
                    <= old(self)@.health[k],
            forall|k: int|
                0 <= k < old(self)@.bodies.len() ==> (#[trigger] final(self)@.bodies[k]).alike(
                    &old(self)@.bodies[k],
                ),
            forall|k: int|
                0 <= k < old(self)@.bodies.len() && old(self)@.health[k] <= 0 ==> {
                    &&& #[trigger] final(self)@.bodies[k] == old(self)@.bodies[k]
                    &&& final(self)@.health[k] == old(self)@.health[k]
                },
    {
        proof {
            let before = self@;
            let after = before.after_tick(self.size, delta_time);
            lemma_tick_pairs(before, self.size, delta_time);
            assert forall|k: int| 0 <= k < before.bodies.len() implies {
                &&& (#[trigger] after.bodies[k]).alike(&before.bodies[k])
                &&& before.health[k] <= 0 ==> after.bodies[k] == before.bodies[k]
                    && after.health[k] == before.health[k]
            } by {
                lemma_tick_frame(before, self.size, delta_time, k);
            }
        }
        let n: usize = self.objects.len();
        let quad_tree = self.index();
        let ghost start = self@;
        let ghost tree = quad_tree.tree();
        let ghost size = self.size;

        let mut i: usize = 0;
        while i < n
            invariant
                i <= n,
                n == self.objects@.len(),
                n == start.bodies.len(),
                self.turning(i as int),
                self.size == size,
                self.tick == old(self).tick,
                quad_tree.wf(),
                quad_tree.region() == arena(size),
                quad_tree.tree() == tree,
                tree == start.indexed(size, n as int),
                self@ == start.swept(tree, size, i as int),
            decreases n - i,
        {
            self.visit(&quad_tree, i, Ghost(start));
            i = i + 1;
        }

        let ghost moved = self@;
        let mut idx: usize = 0;
        while idx < n
            invariant
                idx <= n,
                n == self.objects@.len(),
                self.turning(n as int),
                self.size == size,
                self.tick == old(self).tick,
                self@ == moved.advanced(delta_time, idx as int),
            decreases n - idx,
        {
            if self.health[idx] > 0 {
                self.objects[idx].tick(delta_time);
                assert(self@.bodies =~= moved.advanced(delta_time, idx + 1).bodies);
            }
            idx = idx + 1;
        }

        self.tick = !self.tick;
    }
}

} // verus!
