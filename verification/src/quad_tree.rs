//! A quad-tree over boxes: the broad phase of collision detection.
//!
//! `Node` and `QuadTree` hold what the model `Tree` describes, and every
//! operation on them computes what the model says.
use crate::fixed::{HALF, ONE};
use crate::geometry::{Rectangle, Vector};
use crate::tree::{
    cut_off, encloses, extent, lemma_inserted_settled, lemma_quarter_smaller, lemma_query_finds,
    lemma_query_sound, lemma_settled_shaped, lemma_times_index, lone_quadrant, others, proper,
    quadrants, Tree,
};
use vstd::prelude::*;

verus! {

/// The number of entries that a node holds before it is divided.
pub const MAX_IN_NODE: usize = 1;

/// A node of the tree.
pub struct Node {
    objects: Vec<(usize, Rectangle)>,
    children: Vec<Node>,
}

/// A quad-tree over the region `aabb`.
pub struct QuadTree {
    node: Node,
    aabb: Rectangle,
}

fn divide_aabb(aabb: Rectangle) -> (r: [Rectangle; 4])
    ensures
        r@ == quadrants(aabb),
{
    let half = aabb.size * HALF;
    let rest = aabb.size - half;
    let r = [
        Rectangle::new_vec(aabb.coord, half),
        Rectangle::new_vec(aabb.coord + Vector::new(half.x, 0), Vector::new(rest.x, half.y)),
        Rectangle::new_vec(aabb.coord + Vector::new(0, half.y), Vector::new(half.x, rest.y)),
        Rectangle::new_vec(aabb.coord + half, rest),
    ];
    assert(r@ =~= quadrants(aabb));
    r
}

impl Node {
    /// The model of the node.
    pub closed spec fn view(&self) -> Tree
        decreases self,
    {
        Tree {
            objects: self.objects@,
            children: Seq::new(
                self.children@.len(),
                |i: int|
                    if 0 <= i < self.children@.len() {
                        self.children@[i].view()
                    } else {
                        Tree::leaf()
                    },
            ),
        }
    }

    proof fn lemma_view(&self)
        ensures
            self@.objects == self.objects@,
            self@.children.len() == self.children@.len(),
            forall|i: int|
                0 <= i < self.children@.len() ==> self@.children[i] == (
                #[trigger] self.children@[i])@,
    {
    }

    /// A node that holds nothing and has not been divided.
    pub fn root() -> (r: Self)
        ensures
            r@ == Tree::leaf(),
    {
        let r = Self { objects: Vec::new(), children: Vec::new() };
        assert(r@.children =~= Seq::empty());
        r
    }

    /// Inserts `object` into the tree below this node, which covers
    /// `node_aabb`.
    pub fn insert(&mut self, object: (usize, Rectangle), node_aabb: Rectangle)
        requires
            old(self)@.shaped(),
        ensures
            final(self)@ == old(self)@.inserted(object, node_aabb),
            final(self)@.shaped(),
        decreases extent(node_aabb), 2int, 0int,
    {
        proof {
            self.lemma_view();
        }
        if self.children.len() == 0 {
            self.objects.push(object);
            if self.objects.len() <= MAX_IN_NODE {
                proof {
                    self.lemma_view();
                    assert(self@.children =~= old(self)@.children);
                }
                return ;
            }
            self.children.push(Node::root());
            self.children.push(Node::root());
            self.children.push(Node::root());
            self.children.push(Node::root());

            let sub_aabbs = divide_aabb(node_aabb);
            let mut objects: Vec<(usize, Rectangle)> = Vec::new();
            std::mem::swap(&mut self.objects, &mut objects);
            let ghost start = self@;
            proof {
                self.lemma_view();
                assert(start.children =~= seq![
                    Tree::leaf(),
                    Tree::leaf(),
                    Tree::leaf(),
                    Tree::leaf(),
                ]);
                assert(Tree::leaf().shaped());
                assert(start.shaped());
            }

            let mut k: usize = 0;
            while k < objects.len()
                invariant
                    k <= objects.len(),
                    sub_aabbs@ == quadrants(node_aabb),
                    self@ == start.placed_all(objects@.take(k as int), node_aabb),
                    self@.shaped(),
                    self@.children.len() == 4,
                decreases objects.len() - k,
            {
                proof {
                    let next = objects@.take(k + 1);
                    assert(next.drop_last() =~= objects@.take(k as int));
                    assert(next.last() == objects@[k as int]);
                }
                self.insert_to_children(objects[k], &sub_aabbs, node_aabb);
                k = k + 1;
            }
            assert(objects@.take(k as int) =~= objects@);
        } else {
            let sub_aabbs = divide_aabb(node_aabb);
            self.insert_to_children(object, &sub_aabbs, node_aabb);
        }
    }

    fn insert_to_children(
        &mut self,
        object: (usize, Rectangle),
        sub_aabbs: &[Rectangle; 4],
        node_aabb: Rectangle,
    )
        requires
            old(self)@.shaped(),
            old(self)@.children.len() == 4,
            sub_aabbs@ == quadrants(node_aabb),
        ensures
            final(self)@ == old(self)@.placed(object, node_aabb),
            final(self)@.shaped(),
            final(self)@.children.len() == 4,
        decreases extent(node_aabb), 0int, 0int,
    {
        proof {
            self.lemma_view();
        }
        let object_aabb = object.1;
        let mut sub_node: usize = usize::MAX;
        let mut i: usize = 0;
        while i < 4
            invariant
                i <= 4,
                *self == *old(self),
                old(self)@.shaped(),
                old(self)@.children.len() == 4,
                sub_aabbs@ == quadrants(node_aabb),
                object_aabb == object.1,
                sub_node == usize::MAX || sub_node < i,
                sub_node == usize::MAX ==> forall|j: int|
                    0 <= j < i ==> !object_aabb.overlaps(&#[trigger] sub_aabbs@[j]),
                sub_node < i ==> forall|j: int|
                    0 <= j < i ==> (object_aabb.overlaps(&#[trigger] sub_aabbs@[j]) <==> j
                        == sub_node),
            ensures
                i == 4,
            decreases 4 - i,
        {
            if object_aabb.collides_with(&sub_aabbs[i]) {
                if sub_node == usize::MAX {
                    sub_node = i;
                } else {
                    self.objects.push(object);
                    proof {
                        assert(object_aabb.overlaps(&sub_aabbs@[sub_node as int]));
                        assert(object_aabb.overlaps(&sub_aabbs@[i as int]));
                        assert(lone_quadrant(object_aabb, sub_aabbs@) is None);
                        assert(old(self)@.target(object, node_aabb) is None);
                        self.lemma_view();
                        old(self).lemma_view();
                        assert(self@.children =~= old(self)@.children);
                    }
                    return ;
                }
            }
            i = i + 1;
        }

        if sub_node == usize::MAX {
            self.objects.push(object);
            proof {
                assert(!object_aabb.overlaps(&sub_aabbs@[0]));
                assert(!object_aabb.overlaps(&sub_aabbs@[1]));
                assert(!object_aabb.overlaps(&sub_aabbs@[2]));
                assert(!object_aabb.overlaps(&sub_aabbs@[3]));
                assert(old(self)@.target(object, node_aabb) is None);
                self.lemma_view();
                assert(self@.children =~= old(self)@.children);
            }
            return ;
        }
        proof {
            assert(object_aabb.overlaps(&sub_aabbs@[0]) <==> 0 == sub_node);
            assert(object_aabb.overlaps(&sub_aabbs@[1]) <==> 1 == sub_node);
            assert(object_aabb.overlaps(&sub_aabbs@[2]) <==> 2 == sub_node);
            assert(object_aabb.overlaps(&sub_aabbs@[3]) <==> 3 == sub_node);
            assert(lone_quadrant(object_aabb, sub_aabbs@) == Some(sub_node as int));
        }
        let sub_size = sub_aabbs[sub_node].size;
        if sub_size.x == node_aabb.size.x && sub_size.y == node_aabb.size.y {
            self.objects.push(object);
            proof {
                assert(!cut_off(node_aabb, sub_node as int));
                assert(old(self)@.target(object, node_aabb) is None);
                self.lemma_view();
                assert(self@.children =~= old(self)@.children);
            }
            return ;
        }
        proof {
            assert(cut_off(node_aabb, sub_node as int));
            assert(old(self)@.target(object, node_aabb) == Some(sub_node as int));
            lemma_quarter_smaller(node_aabb, sub_node as int);
        }
        self.children[sub_node].insert(object, sub_aabbs[sub_node]);
        proof {
            self.lemma_view();
            assert(self@.children =~= old(self)@.children.update(
                sub_node as int,
                old(self)@.children[sub_node as int].inserted(object, sub_aabbs@[sub_node as int]),
            ));
        }
    }

    /// Adds to `out` the ids that may collide with `object`.
    fn collect(&self, object: (usize, Rectangle), node_aabb: Rectangle, out: &mut Vec<usize>)
        ensures
            final(out)@ == old(out)@ + self@.query(object.0, object.1, node_aabb),
        decreases self,
    {
        proof {
            self.lemma_view();
        }
        let mut k: usize = 0;
        while k < self.objects.len()
            invariant
                k <= self.objects.len(),
                out@ == old(out)@ + others(self.objects@.take(k as int), object.0),
            decreases self.objects.len() - k,
        {
            proof {
                let next = self.objects@.take(k + 1);
                assert(next.drop_last() =~= self.objects@.take(k as int));
                assert(next.last() == self.objects@[k as int]);
            }
            if self.objects[k].0 != object.0 {
                out.push(self.objects[k].0);
            }
            assert(out@ =~= old(out)@ + others(self.objects@.take(k + 1), object.0));
            k = k + 1;
        }
        assert(self.objects@.take(k as int) =~= self.objects@);
        if self.children.len() == 4 {
            let sub_aabbs = divide_aabb(node_aabb);
            let mut i: usize = 0;
            while i < 4
                invariant
                    i <= 4,
                    self.children.len() == 4,
                    self@.children.len() == 4,
                    sub_aabbs@ == quadrants(node_aabb),
                    forall|j: int|
                        0 <= j < 4 ==> self@.children[j] == (#[trigger] self.children@[j])@,
                    out@ == old(out)@ + others(self.objects@, object.0) + self@.below(
                        object.0,
                        object.1,
                        node_aabb,
                        i as int,
                    ),
                decreases 4 - i,
            {
                let ghost before = out@;
                if sub_aabbs[i].collides_with(&object.1) {
                    self.children[i].collect(object, sub_aabbs[i], out);
                }
                assert(out@ =~= old(out)@ + others(self.objects@, object.0) + self@.below(
                    object.0,
                    object.1,
                    node_aabb,
                    i + 1,
                ));
                i = i + 1;
            }
            assert(out@ =~= old(out)@ + (others(self.objects@, object.0) + self@.below(
                object.0,
                object.1,
                node_aabb,
                4,
            )));
        } else {
            assert(out@ =~= old(out)@ + others(self.objects@, object.0));
        }
    }

    /// The ids below this node, which covers `node_aabb`, that may collide
    /// with `object`.
    pub fn might_collide(&self, object: (usize, Rectangle), node_aabb: Rectangle) -> (r: Vec<
        usize,
    >)
        ensures
            r@ == self@.query(object.0, object.1, node_aabb),
    {
        let mut out: Vec<usize> = Vec::new();
        self.collect(object, node_aabb, &mut out);
        assert(out@ =~= self@.query(object.0, object.1, node_aabb));
        out
    }

    /// Adds to `vec` the shape of the tree below this node, as tags.
    pub fn export(&self, vec: &mut Vec<i64>)
        ensures
            final(vec)@ == old(vec)@ + self@.tags(),
        decreases self,
    {
        proof {
            self.lemma_view();
        }
        if self.children.len() == 4 {
            vec.push(ONE);
            self.children[0].export(vec);
            self.children[1].export(vec);
            self.children[2].export(vec);
            self.children[3].export(vec);
            assert(vec@ =~= old(vec)@ + self@.tags());
        } else {
            vec.push(0);
            assert(vec@ =~= old(vec)@ + self@.tags());
        }
    }
}

impl QuadTree {
    /// The model of the tree.
    pub closed spec fn tree(&self) -> Tree {
        self.node@
    }

    /// The region that the tree covers.
    pub closed spec fn region(&self) -> Rectangle {
        self.aabb
    }

    /// Every entry of the tree sits where insertion puts it.
    pub open spec fn wf(&self) -> bool {
        self.tree().settled(self.region())
    }

    /// An empty tree over the region `aabb`.
    pub fn new(aabb: Rectangle) -> (t: Self)
        ensures
            t.wf(),
            t.tree() == Tree::leaf(),
            t.region() == aabb,
    {
        Self { node: Node::root(), aabb }
    }

    /// Inserts the box `aabb` of the body `object_id`.
    pub fn insert(&mut self, object_id: usize, aabb: Rectangle)
        requires
            old(self).wf(),
        ensures
            final(self).wf(),
            final(self).tree() == old(self).tree().inserted((object_id, aabb), old(self).region()),
            final(self).region() == old(self).region(),
    {
        proof {
            lemma_settled_shaped(self.tree(), self.region());
            lemma_inserted_settled(self.tree(), (object_id, aabb), self.region());
        }
        self.node.insert((object_id, aabb), self.aabb);
    }

    /// The ids in the tree that may collide with the box `aabb` of the body
    /// `object_id`.
    ///
    /// The body itself is not among them.  When the sides of the region are
    /// not negative, every other entry that lies within the region and
    /// overlaps `aabb` is.
    pub fn might_collide(&self, object_id: usize, aabb: Rectangle) -> (r: Vec<usize>)
        requires
            self.wf(),
        ensures
            r@ == self.tree().query(object_id, aabb, self.region()),
            forall|k: int| 0 <= k < r@.len() ==> #[trigger] r@[k] != object_id,
            proper(self.region()) ==> forall|e: (usize, Rectangle)|
                #[trigger] self.tree().holds(e) && encloses(self.region(), e.1) && e.0
                    != object_id && e.1.overlaps(&aabb) ==> r@.contains(e.0),
    {
        let r = self.node.might_collide((object_id, aabb), self.aabb);
        proof {
            assert forall|k: int| 0 <= k < r@.len() implies #[trigger] r@[k] != object_id by {
                lemma_times_index(r@, k);
                lemma_query_sound(self.tree(), object_id, aabb, self.region(), r@[k]);
            }
            if proper(self.region()) {
                assert forall|e: (usize, Rectangle)|
                    #[trigger] self.tree().holds(e) && encloses(self.region(), e.1) && e.0
                        != object_id && e.1.overlaps(&aabb) implies r@.contains(e.0) by {
                    lemma_query_finds(self.tree(), self.region(), object_id, aabb, e);
                }
            }
        }
        r
    }

    /// Adds to `vec` the shape of the tree, as tags.
    pub fn export(&self, vec: &mut Vec<i64>)
        ensures
            final(vec)@ == old(vec)@ + self.tree().tags(),
    {
        self.node.export(vec);
    }
}

} // verus!
