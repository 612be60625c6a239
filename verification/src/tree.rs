//! The quad-tree as mathematics.
//!
//! `Tree` is what a quad-tree stands for.  The functions here say what
//! inserting and querying do, and the lemmas say what holds of every tree
//! that insertion builds.
use crate::fixed::{magnitude, HALF, ONE};
use crate::geometry::{Rectangle, Vector};
use crate::quad_tree::MAX_IN_NODE;
use vstd::prelude::*;

verus! {

/// The model of a tree node: the entries kept at the node itself, and its
/// children, four of them once the node has been divided and none before.
pub struct Tree {
    pub objects: Seq<(usize, Rectangle)>,
    pub children: Seq<Tree>,
}

/// The four quarters of a region: top-left, top-right, bottom-left and
/// bottom-right.
///
/// The region is cut at half its width and half its height, rounded toward
/// zero.  The left and the top quarters reach from the near edges to the
/// cut, the right and the bottom quarters from the cut to the far edges, so
/// that the quarters of a region with sides that are not negative cover it.
pub open spec fn quadrants(aabb: Rectangle) -> Seq<Rectangle> {
    let half = aabb.size.scaled(HALF);
    let rest = aabb.size.minus(half);
    seq![
        Rectangle { coord: aabb.coord, size: half },
        Rectangle {
            coord: aabb.coord.plus(Vector { x: half.x, y: 0 }),
            size: Vector { x: rest.x, y: half.y },
        },
        Rectangle {
            coord: aabb.coord.plus(Vector { x: 0, y: half.y }),
            size: Vector { x: half.x, y: rest.y },
        },
        Rectangle { coord: aabb.coord.plus(half), size: rest },
    ]
}

/// Quarter `q` of the region is not the region over again.  A region of at
/// most one raw unit a side cannot be cut: its last quarter has its size.
pub open spec fn cut_off(region: Rectangle, q: int) -> bool {
    quadrants(region)[q].size != region.size
}

/// Both sides of the region are not negative.
pub open spec fn proper(region: Rectangle) -> bool {
    0 <= region.size.x && 0 <= region.size.y
}

/// The one quarter among `subs` that the box `b` overlaps; `None` when it
/// overlaps none of them, or more than one.
pub open spec fn lone_quadrant(b: Rectangle, subs: Seq<Rectangle>) -> Option<int> {
    let h0 = b.overlaps(&subs[0]);
    let h1 = b.overlaps(&subs[1]);
    let h2 = b.overlaps(&subs[2]);
    let h3 = b.overlaps(&subs[3]);
    if h0 && !h1 && !h2 && !h3 {
        Some(0)
    } else if !h0 && h1 && !h2 && !h3 {
        Some(1)
    } else if !h0 && !h1 && h2 && !h3 {
        Some(2)
    } else if !h0 && !h1 && !h2 && h3 {
        Some(3)
    } else {
        None
    }
}

/// The width and the height of a region, added as distances from zero.
/// Each quarter of a region that is not the region over again has a smaller
/// extent than the region.
pub open spec fn extent(aabb: Rectangle) -> nat {
    (magnitude(aabb.size.x as int) + magnitude(aabb.size.y as int)) as nat
}

/// The box `b` lies within `region`, and its right and bottom edges are not
/// before its left and top edges.
pub open spec fn encloses(region: Rectangle, b: Rectangle) -> bool {
    &&& region.left() <= b.left() <= b.right() <= region.right()
    &&& region.top() <= b.top() <= b.bottom() <= region.bottom()
}

/// The ids of `objects`, in order, without `id`.
pub open spec fn others(objects: Seq<(usize, Rectangle)>, id: usize) -> Seq<usize>
    decreases objects.len(),
{
    if objects.len() == 0 {
        Seq::empty()
    } else if objects.last().0 != id {
        others(objects.drop_last(), id).push(objects.last().0)
    } else {
        others(objects.drop_last(), id)
    }
}

impl Tree {
    /// A node that holds nothing and has not been divided.
    pub open spec fn leaf() -> Tree {
        Tree { objects: Seq::empty(), children: Seq::empty() }
    }

    /// Every node of the tree has four children or none.
    pub open spec fn shaped(self) -> bool
        decreases self,
    {
        &&& self.children.len() == 0 || self.children.len() == 4
        &&& forall|i: int| 0 <= i < self.children.len() ==> (#[trigger] self.children[i]).shaped()
    }

    /// The tree over `region` after `object` has been inserted.
    ///
    /// An undivided node takes the entry.  If it then holds more than
    /// `MAX_IN_NODE`, it is divided and hands all its entries on, in order.
    /// A divided node hands the entry on.
    pub open spec fn inserted(self, object: (usize, Rectangle), region: Rectangle) -> Tree
        decreases extent(region), 2int, 0int,
    {
        if self.children.len() == 0 {
            let held = self.objects.push(object);
            if held.len() <= MAX_IN_NODE {
                Tree { objects: held, children: self.children }
            } else {
                (Tree {
                    objects: Seq::empty(),
                    children: seq![Tree::leaf(), Tree::leaf(), Tree::leaf(), Tree::leaf()],
                }).placed_all(held, region)
            }
        } else {
            self.placed(object, region)
        }
    }

    /// The child that `object` is handed on to in a divided node over
    /// `region`: the child of the one quarter that the object's box overlaps,
    /// if there is one and it is not the region over again.
    pub open spec fn target(self, object: (usize, Rectangle), region: Rectangle) -> Option<int> {
        match lone_quadrant(object.1, quadrants(region)) {
            Some(q) => if self.children.len() == 4 && cut_off(region, q) {
                Some(q)
            } else {
                None
            },
            None => None,
        }
    }

    /// A divided node over `region` after `object` has been handed on: into
    /// the child of the one quarter that the object's box overlaps, and
    /// kept at the node itself when the box overlaps no quarter or several,
    /// or when the quarter is the region over again.
    pub open spec fn placed(self, object: (usize, Rectangle), region: Rectangle) -> Tree
        decreases extent(region), 0int, 0int,
    {
        match self.target(object, region) {
            Some(q) => Tree {
                objects: self.objects,
                children: self.children.update(
                    q,
                    self.children[q].inserted(object, quadrants(region)[q]),
                ),
            },
            None => Tree { objects: self.objects.push(object), children: self.children },
        }
    }

    /// A divided node over `region` after `objects` have been handed on, one
    /// after the other.
    pub open spec fn placed_all(self, objects: Seq<(usize, Rectangle)>, region: Rectangle) -> Tree
        decreases extent(region), 1int, objects.len(),
    {
        if objects.len() == 0 {
            self
        } else {
            self.placed_all(objects.drop_last(), region).placed(objects.last(), region)
        }
    }

    /// The ids that may collide with the box `b` of the body `id`, in a tree
    /// over `region`: the ids kept at the node, without `id`, and then those
    /// found in each child whose quarter `b` overlaps.
    pub open spec fn query(self, id: usize, b: Rectangle, region: Rectangle) -> Seq<usize>
        decreases self, 5int,
    {
        if self.children.len() == 4 {
            others(self.objects, id) + self.below(id, b, region, 4)
        } else {
            others(self.objects, id)
        }
    }

    /// The part of a query that the first `upto` children of a divided node
    /// answer.
    pub open spec fn below(self, id: usize, b: Rectangle, region: Rectangle, upto: int) -> Seq<
        usize,
    >
        decreases self, upto,
    {
        if 0 < upto <= 4 && self.children.len() == 4 {
            let i = upto - 1;
            let sub = quadrants(region)[i];
            if sub.overlaps(&b) {
                self.below(id, b, region, i) + self.children[i].query(id, b, sub)
            } else {
                self.below(id, b, region, i)
            }
        } else {
            Seq::empty()
        }
    }

    /// The shape of the tree as a stream of tags, node before children: zero
    /// for an undivided node, `ONE` for a divided one.
    pub open spec fn tags(self) -> Seq<i64>
        decreases self,
    {
        if self.children.len() == 4 {
            seq![ONE] + self.children[0].tags() + self.children[1].tags()
                + self.children[2].tags() + self.children[3].tags()
        } else {
            seq![0i64]
        }
    }

    /// Every entry sits where insertion puts it, in a tree over `region`.
    ///
    /// An undivided node holds at most `MAX_IN_NODE` entries.  In a divided
    /// node, the box of an entry kept at the node overlaps no quarter of the
    /// region or several, or one that is the region over again; the box of
    /// an entry below child `i` overlaps quarter `i` and no other; and child
    /// `i` is such a tree over quarter `i`.
    pub open spec fn settled(self, region: Rectangle) -> bool
        decreases self,
    {
        &&& self.children.len() == 0 || self.children.len() == 4
        &&& self.children.len() == 0 ==> self.objects.len() <= MAX_IN_NODE
        &&& self.children.len() == 4 ==> {
            &&& forall|k: int|
                0 <= k < self.objects.len() ==> self.target(#[trigger] self.objects[k], region)
                    is None
            &&& forall|i: int|
                0 <= i < 4 ==> (#[trigger] self.children[i]).settled(quadrants(region)[i])
            &&& forall|i: int, e: (usize, Rectangle)|
                0 <= i < 4 && #[trigger] self.children[i].holds(e) ==> lone_quadrant(
                    e.1,
                    quadrants(region),
                ) == Some(i)
        }
    }

    /// The entry `e` can be found from without, in a tree over `region`: it
    /// is kept at the root, or it can be found in a child whose quarter
    /// encloses its box.
    pub open spec fn reaches(self, region: Rectangle, e: (usize, Rectangle)) -> bool
        decreases self,
    {
        self.objects.contains(e) || (self.children.len() == 4 && {
            let subs = quadrants(region);
            ||| encloses(subs[0], e.1) && self.children[0].reaches(subs[0], e)
            ||| encloses(subs[1], e.1) && self.children[1].reaches(subs[1], e)
            ||| encloses(subs[2], e.1) && self.children[2].reaches(subs[2], e)
            ||| encloses(subs[3], e.1) && self.children[3].reaches(subs[3], e)
        })
    }

    /// The number of entries in the tree.
    pub open spec fn size(self) -> nat
        decreases self,
    {
        if self.children.len() == 4 {
            self.objects.len() + self.children[0].size() + self.children[1].size()
                + self.children[2].size() + self.children[3].size()
        } else {
            self.objects.len()
        }
    }

    /// The number of entries in the tree that carry the id `id`.
    pub open spec fn count(self, id: usize) -> nat
        decreases self,
    {
        if self.children.len() == 4 {
            tally(self.objects, id) + self.children[0].count(id) + self.children[1].count(id)
                + self.children[2].count(id) + self.children[3].count(id)
        } else {
            tally(self.objects, id)
        }
    }

    /// The entry `e` is somewhere in the tree.
    pub open spec fn holds(self, e: (usize, Rectangle)) -> bool
        decreases self,
    {
        if self.children.len() == 4 {
            self.objects.contains(e) || self.children[0].holds(e) || self.children[1].holds(e)
                || self.children[2].holds(e) || self.children[3].holds(e)
        } else {
            self.objects.contains(e)
        }
    }
}

/// The number of entries among `objects` that carry the id `id`.
pub open spec fn tally(objects: Seq<(usize, Rectangle)>, id: usize) -> nat
    decreases objects.len(),
{
    if objects.len() == 0 {
        0
    } else if objects.last().0 == id {
        tally(objects.drop_last(), id) + 1
    } else {
        tally(objects.drop_last(), id)
    }
}

/// The number of times that `id` occurs in `ids`.
pub open spec fn times(ids: Seq<usize>, id: usize) -> nat
    decreases ids.len(),
{
    if ids.len() == 0 {
        0
    } else if ids.last() == id {
        times(ids.drop_last(), id) + 1
    } else {
        times(ids.drop_last(), id)
    }
}

/// Occurrences in a concatenation add up.
proof fn lemma_times_concat(a: Seq<usize>, b: Seq<usize>, id: usize)
    ensures
        times(a + b, id) == times(a, id) + times(b, id),
    decreases b.len(),
{
    if b.len() == 0 {
        assert(a + b =~= a);
    } else {
        assert((a + b).drop_last() =~= a + b.drop_last());
        lemma_times_concat(a, b.drop_last(), id);
    }
}

/// An id that occurs in a list occurs at least once.
pub proof fn lemma_times_index(ids: Seq<usize>, k: int)
    requires
        0 <= k < ids.len(),
    ensures
        times(ids, ids[k]) >= 1,
    decreases ids.len(),
{
    if k < ids.len() - 1 {
        lemma_times_index(ids.drop_last(), k);
    }
}

/// A list in which no id occurs twice has no two equal elements.
pub proof fn lemma_times_distinct(ids: Seq<usize>, i: int, j: int)
    requires
        0 <= i < j < ids.len(),
        times(ids, ids[j]) <= 1,
    ensures
        ids[i] != ids[j],
    decreases ids.len(),
{
    if j < ids.len() - 1 {
        lemma_times_distinct(ids.drop_last(), i, j);
    } else {
        lemma_times_index(ids.drop_last(), i);
    }
}

/// The ids of a list of entries without `id`: `id` does not occur, and every
/// other id occurs as often as it is carried.
proof fn lemma_others_times(objects: Seq<(usize, Rectangle)>, id: usize, k: usize)
    ensures
        times(others(objects, id), k) == if k == id {
            0
        } else {
            tally(objects, k)
        },
        others(objects, id).len() <= objects.len(),
    decreases objects.len(),
{
    if objects.len() > 0 {
        lemma_others_times(objects.drop_last(), id, k);
        if objects.last().0 != id {
            assert(others(objects, id).drop_last() =~= others(objects.drop_last(), id));
        }
    }
}

/// Inserting an entry adds that entry to the tree, and nothing else.
///
/// The tree keeps its shape of four children or none, it grows by one entry,
/// the id of the entry is carried once more and every other id as often as
/// before, and the tree holds what it held and the entry.
pub proof fn lemma_inserted(tree: Tree, object: (usize, Rectangle), region: Rectangle)
    requires
        tree.shaped(),
    ensures
        tree.inserted(object, region).shaped(),
        tree.inserted(object, region).size() == tree.size() + 1,
        forall|id: usize| #[trigger]
            tree.inserted(object, region).count(id) == tree.count(id) + if object.0 == id {
                1nat
            } else {
                0nat
            },
        forall|e: (usize, Rectangle)| #[trigger]
            tree.inserted(object, region).holds(e) <==> tree.holds(e) || e == object,
    decreases extent(region), 2int, 0int,
{
    if tree.children.len() == 0 {
        let held = tree.objects.push(object);
        assert(held.drop_last() =~= tree.objects);
        if held.len() <= MAX_IN_NODE {
            assert forall|e: (usize, Rectangle)| held.contains(e) <==> tree.objects.contains(e)
                || e == object by {
                lemma_push_contains(tree.objects, object, e);
            }
        } else {
            let start = Tree {
                objects: Seq::empty(),
                children: seq![Tree::leaf(), Tree::leaf(), Tree::leaf(), Tree::leaf()],
            };
            assert(Tree::leaf().shaped());
            assert(start.shaped());
            assert(Tree::leaf().size() == 0);
            assert(start.size() == 0);
            assert forall|id: usize| start.count(id) == 0 by {
                assert(Tree::leaf().count(id) == 0);
            }
            assert forall|e: (usize, Rectangle)| !start.holds(e) by {
                assert(!Tree::leaf().holds(e));
            }
            lemma_placed_all(start, held, region);
            assert forall|e: (usize, Rectangle)| held.contains(e) <==> tree.objects.contains(e)
                || e == object by {
                lemma_push_contains(tree.objects, object, e);
            }
        }
    } else {
        lemma_placed(tree, object, region);
    }
}

/// What `push` adds to a sequence.
proof fn lemma_push_contains<A>(s: Seq<A>, a: A, e: A)
    ensures
        s.push(a).contains(e) <==> s.contains(e) || e == a,
{
    if s.contains(e) {
        let i = choose|i: int| 0 <= i < s.len() && s[i] == e;
        assert(s.push(a)[i] == e);
    }
    if e == a {
        assert(s.push(a)[s.len() as int] == e);
    }
    if s.push(a).contains(e) {
        let i = choose|i: int| 0 <= i < s.push(a).len() && s.push(a)[i] == e;
        if i < s.len() {
            assert(s[i] == e);
        }
    }
}

/// Handing an entry on in a divided node adds that entry, and nothing else.
proof fn lemma_placed(tree: Tree, object: (usize, Rectangle), region: Rectangle)
    requires
        tree.shaped(),
        tree.children.len() == 4,
    ensures
        tree.placed(object, region).shaped(),
        tree.placed(object, region).children.len() == 4,
        tree.placed(object, region).size() == tree.size() + 1,
        forall|id: usize| #[trigger]
            tree.placed(object, region).count(id) == tree.count(id) + if object.0 == id {
                1nat
            } else {
                0nat
            },
        forall|e: (usize, Rectangle)| #[trigger]
            tree.placed(object, region).holds(e) <==> tree.holds(e) || e == object,
    decreases extent(region), 0int, 0int,
{
    let subs = quadrants(region);
    let r = tree.placed(object, region);
    match tree.target(object, region) {
        Some(q) => {
            lemma_quarter_smaller(region, q);
            lemma_inserted(tree.children[q], object, subs[q]);
            assert(r.children[q] == tree.children[q].inserted(object, subs[q]));
            assert forall|i: int| 0 <= i < 4 && i != q implies r.children[i]
                == tree.children[i] by {}
            assert(r.shaped());
            assert(r.size() == tree.size() + 1);
            assert forall|id: usize| #[trigger]
                r.count(id) == tree.count(id) + if object.0 == id {
                    1nat
                } else {
                    0nat
                } by {
                assert(r.children[q].count(id) == tree.children[q].count(id) + if object.0
                    == id {
                    1nat
                } else {
                    0nat
                });
            }
            assert forall|e: (usize, Rectangle)| #[trigger]
                r.holds(e) <==> tree.holds(e) || e == object by {
                assert(r.children[q].holds(e) <==> tree.children[q].holds(e) || e == object);
            }
        },
        None => {
            let held = tree.objects.push(object);
            assert(held.drop_last() =~= tree.objects);
            assert forall|e: (usize, Rectangle)| #[trigger]
                r.holds(e) <==> tree.holds(e) || e == object by {
                lemma_push_contains(tree.objects, object, e);
            }
        },
    }
}

/// Handing entries on in a divided node adds those entries, and nothing
/// else.
proof fn lemma_placed_all(tree: Tree, objects: Seq<(usize, Rectangle)>, region: Rectangle)
    requires
        tree.shaped(),
        tree.children.len() == 4,
    ensures
        tree.placed_all(objects, region).shaped(),
        tree.placed_all(objects, region).children.len() == 4,
        tree.placed_all(objects, region).size() == tree.size() + objects.len(),
        forall|id: usize| #[trigger]
            tree.placed_all(objects, region).count(id) == tree.count(id) + tally(objects, id),
        forall|e: (usize, Rectangle)| #[trigger]
            tree.placed_all(objects, region).holds(e) <==> tree.holds(e) || objects.contains(e),
    decreases extent(region), 1int, objects.len(),
{
    if objects.len() > 0 {
        let init = objects.drop_last();
        let before = tree.placed_all(init, region);
        lemma_placed_all(tree, init, region);
        lemma_placed(before, objects.last(), region);
        assert(init.push(objects.last()) =~= objects);
        assert forall|e: (usize, Rectangle)| #[trigger]
            tree.placed_all(objects, region).holds(e) <==> tree.holds(e) || objects.contains(
                e,
            ) by {
            lemma_push_contains(init, objects.last(), e);
        }
    }
}

/// What a query can return: never the id that asks, and no other id more
/// often than the tree carries it.
pub proof fn lemma_query_sound(tree: Tree, id: usize, b: Rectangle, region: Rectangle, k: usize)
    ensures
        times(tree.query(id, b, region), id) == 0,
        times(tree.query(id, b, region), k) <= tree.count(k),
        tree.query(id, b, region).len() <= tree.size(),
    decreases tree, 5int,
{
    lemma_others_times(tree.objects, id, k);
    lemma_others_times(tree.objects, id, id);
    if tree.children.len() == 4 {
        reveal_with_fuel(below_count, 5);
        reveal_with_fuel(below_size, 5);
        lemma_below_sound(tree, id, b, region, 4, k);
        lemma_times_concat(others(tree.objects, id), tree.below(id, b, region, 4), k);
        lemma_times_concat(others(tree.objects, id), tree.below(id, b, region, 4), id);
    }
}

/// What the first `upto` children of a divided node can add to a query.
proof fn lemma_below_sound(
    tree: Tree,
    id: usize,
    b: Rectangle,
    region: Rectangle,
    upto: int,
    k: usize,
)
    requires
        0 <= upto <= 4,
        tree.children.len() == 4,
    ensures
        times(tree.below(id, b, region, upto), id) == 0,
        times(tree.below(id, b, region, upto), k) <= below_count(tree, k, upto),
        tree.below(id, b, region, upto).len() <= below_size(tree, upto),
    decreases tree, upto,
{
    if upto > 0 {
        let i = upto - 1;
        let sub = quadrants(region)[i];
        lemma_below_sound(tree, id, b, region, i, k);
        if sub.overlaps(&b) {
            lemma_query_sound(tree.children[i], id, b, sub, k);
            lemma_times_concat(
                tree.below(id, b, region, i),
                tree.children[i].query(id, b, sub),
                k,
            );
            lemma_times_concat(
                tree.below(id, b, region, i),
                tree.children[i].query(id, b, sub),
                id,
            );
        }
    }
}

/// The number of entries with the id `k` in the first `upto` children.
spec fn below_count(tree: Tree, k: usize, upto: int) -> nat
    decreases upto,
{
    if 0 < upto <= tree.children.len() {
        below_count(tree, k, upto - 1) + tree.children[upto - 1].count(k)
    } else {
        0
    }
}

/// The number of entries in the first `upto` children.
spec fn below_size(tree: Tree, upto: int) -> nat
    decreases upto,
{
    if 0 < upto <= tree.children.len() {
        below_size(tree, upto - 1) + tree.children[upto - 1].size()
    } else {
        0
    }
}

/// A quarter of a region that is not the region over again is smaller than
/// the region.
pub proof fn lemma_quarter_smaller(region: Rectangle, q: int)
    requires
        0 <= q < 4,
        cut_off(region, q),
    ensures
        extent(quadrants(region)[q]) < extent(region),
{
    let half = region.size.scaled(HALF);
    let rest = region.size.minus(half);
    assert(magnitude(half.x as int) <= magnitude(region.size.x as int));
    assert(magnitude(half.y as int) <= magnitude(region.size.y as int));
    assert(magnitude(rest.x as int) <= magnitude(region.size.x as int));
    assert(magnitude(rest.y as int) <= magnitude(region.size.y as int));
    assert(half.x == region.size.x <==> region.size.x == 0);
    assert(half.y == region.size.y <==> region.size.y == 0);
}

/// A tree in which every entry sits where insertion puts it has four
/// children or none at every node.
pub proof fn lemma_settled_shaped(tree: Tree, region: Rectangle)
    requires
        tree.settled(region),
    ensures
        tree.shaped(),
    decreases tree,
{
    if tree.children.len() == 4 {
        assert forall|i: int| 0 <= i < 4 implies (#[trigger] tree.children[i]).shaped() by {
            lemma_settled_shaped(tree.children[i], quadrants(region)[i]);
        }
    }
}

/// Insertion keeps every entry where insertion puts it.
pub proof fn lemma_inserted_settled(tree: Tree, object: (usize, Rectangle), region: Rectangle)
    requires
        tree.settled(region),
    ensures
        tree.inserted(object, region).settled(region),
    decreases extent(region), 2int, 0int,
{
    if tree.children.len() == 0 {
        let held = tree.objects.push(object);
        if held.len() > MAX_IN_NODE {
            let start = Tree {
                objects: Seq::empty(),
                children: seq![Tree::leaf(), Tree::leaf(), Tree::leaf(), Tree::leaf()],
            };
            assert forall|i: int| 0 <= i < 4 implies (#[trigger] start.children[i]).settled(
                quadrants(region)[i],
            ) by {
                assert(start.children[i] == Tree::leaf());
            }
            assert forall|i: int, e: (usize, Rectangle)|
                0 <= i < 4 && #[trigger] start.children[i].holds(e) implies lone_quadrant(
                e.1,
                quadrants(region),
            ) == Some(i) by {
                assert(start.children[i] == Tree::leaf());
            }
            assert(start.settled(region));
            lemma_placed_all_settled(start, held, region);
        }
    } else {
        lemma_placed_settled(tree, object, region);
    }
}

/// Handing an entry on keeps every entry where insertion puts it.
proof fn lemma_placed_settled(tree: Tree, object: (usize, Rectangle), region: Rectangle)
    requires
        tree.settled(region),
        tree.children.len() == 4,
    ensures
        tree.placed(object, region).settled(region),
        tree.placed(object, region).children.len() == 4,
    decreases extent(region), 0int, 0int,
{
    let subs = quadrants(region);
    let r = tree.placed(object, region);
    match tree.target(object, region) {
        Some(q) => {
            lemma_quarter_smaller(region, q);
            lemma_settled_shaped(tree.children[q], subs[q]);
            lemma_inserted(tree.children[q], object, subs[q]);
            lemma_inserted_settled(tree.children[q], object, subs[q]);
            assert forall|i: int| 0 <= i < 4 implies (#[trigger] r.children[i]).settled(
                subs[i],
            ) by {
                if i != q {
                    assert(r.children[i] == tree.children[i]);
                }
            }
            assert forall|i: int, e: (usize, Rectangle)|
                0 <= i < 4 && #[trigger] r.children[i].holds(e) implies lone_quadrant(e.1, subs)
                == Some(i) by {
                if i != q {
                    assert(r.children[i] == tree.children[i]);
                } else if e != object {
                    assert(tree.children[q].holds(e));
                }
            }
        },
        None => {
            assert forall|k: int| 0 <= k < r.objects.len() implies r.target(
                #[trigger] r.objects[k],
                region,
            ) is None by {
                if k < tree.objects.len() {
                    assert(r.objects[k] == tree.objects[k]);
                    assert(tree.target(tree.objects[k], region) is None);
                }
            }
        },
    }
}

/// Handing entries on keeps every entry where insertion puts it.
proof fn lemma_placed_all_settled(
    tree: Tree,
    objects: Seq<(usize, Rectangle)>,
    region: Rectangle,
)
    requires
        tree.settled(region),
        tree.children.len() == 4,
    ensures
        tree.placed_all(objects, region).settled(region),
        tree.placed_all(objects, region).children.len() == 4,
    decreases extent(region), 1int, objects.len(),
{
    if objects.len() > 0 {
        lemma_placed_all_settled(tree, objects.drop_last(), region);
        lemma_placed_settled(
            tree.placed_all(objects.drop_last(), region),
            objects.last(),
            region,
        );
    }
}

/// The id of an entry among `objects` is among their ids without `id`,
/// unless it is `id`.
proof fn lemma_others_contains(
    objects: Seq<(usize, Rectangle)>,
    id: usize,
    e: (usize, Rectangle),
)
    requires
        objects.contains(e),
        e.0 != id,
    ensures
        others(objects, id).contains(e.0),
    decreases objects.len(),
{
    if objects.last() == e {
        let found = others(objects, id);
        assert(found[found.len() - 1] == e.0);
    } else {
        let i = choose|i: int| 0 <= i < objects.len() && objects[i] == e;
        assert(objects.drop_last()[i] == e);
        lemma_others_contains(objects.drop_last(), id, e);
        let found = others(objects.drop_last(), id);
        let j = choose|j: int| 0 <= j < found.len() && found[j] == e.0;
        assert(others(objects, id)[j] == e.0);
    }
}

/// A quarter that holds a box which lies within the region, and which
/// overlaps no other quarter, encloses that box.
proof fn lemma_quarter_encloses(region: Rectangle, b: Rectangle, q: int)
    requires
        proper(region),
        encloses(region, b),
        lone_quadrant(b, quadrants(region)) == Some(q),
    ensures
        0 <= q < 4,
        encloses(quadrants(region)[q], b),
        proper(quadrants(region)[q]),
{
}

/// A query misses no entry that can be found from without and whose box
/// overlaps the box asked for, unless the entry carries the id that asks.
///
/// An entry that cannot be found from without sits below a quarter that
/// its box reaches out of, and a query for a box that overlaps it there
/// only does not come by it.
pub proof fn lemma_query_complete(
    tree: Tree,
    region: Rectangle,
    id: usize,
    b: Rectangle,
    e: (usize, Rectangle),
)
    requires
        tree.reaches(region, e),
        e.0 != id,
        e.1.overlaps(&b),
    ensures
        tree.query(id, b, region).contains(e.0),
    decreases tree,
{
    let own = others(tree.objects, id);
    if tree.objects.contains(e) {
        lemma_others_contains(tree.objects, id, e);
        let j = choose|j: int| 0 <= j < own.len() && own[j] == e.0;
        assert(tree.query(id, b, region)[j] == e.0);
    } else {
        let subs = quadrants(region);
        let i = if encloses(subs[0], e.1) && tree.children[0].reaches(subs[0], e) {
            0int
        } else if encloses(subs[1], e.1) && tree.children[1].reaches(subs[1], e) {
            1int
        } else if encloses(subs[2], e.1) && tree.children[2].reaches(subs[2], e) {
            2int
        } else {
            3int
        };
        assert(encloses(subs[i], e.1) && tree.children[i].reaches(subs[i], e));
        lemma_query_complete(tree.children[i], subs[i], id, b, e);
        assert(subs[i].overlaps(&b));
        let rest = tree.below(id, b, region, 4);
        lemma_below_contains(tree, id, b, region, 4, i, e.0);
        let m = choose|m: int| 0 <= m < rest.len() && rest[m] == e.0;
        assert(tree.query(id, b, region)[own.len() + m] == e.0);
    }
}

/// Every entry within the region of a tree can be found from without, when
/// every entry of the tree sits where insertion puts it and the sides of
/// the region are not negative.
pub proof fn lemma_reaches(tree: Tree, region: Rectangle, e: (usize, Rectangle))
    requires
        tree.settled(region),
        proper(region),
        tree.holds(e),
        encloses(region, e.1),
    ensures
        tree.reaches(region, e),
    decreases tree,
{
    if !tree.objects.contains(e) {
        let subs = quadrants(region);
        let i = if tree.children[0].holds(e) {
            0int
        } else if tree.children[1].holds(e) {
            1int
        } else if tree.children[2].holds(e) {
            2int
        } else {
            3int
        };
        assert(tree.children[i].holds(e));
        lemma_quarter_encloses(region, e.1, i);
        lemma_reaches(tree.children[i], subs[i], e);
    }
}

/// A query misses no entry within the region of the tree.
///
/// In a tree over a region with sides that are not negative, in which every
/// entry sits where insertion puts it, a query returns the id of every
/// entry that lies within the region, overlaps the box that is asked for,
/// and carries another id than the one that asks.
pub proof fn lemma_query_finds(
    tree: Tree,
    region: Rectangle,
    id: usize,
    b: Rectangle,
    e: (usize, Rectangle),
)
    requires
        tree.settled(region),
        proper(region),
        tree.holds(e),
        encloses(region, e.1),
        e.0 != id,
        e.1.overlaps(&b),
    ensures
        tree.query(id, b, region).contains(e.0),
{
    lemma_reaches(tree, region, e);
    lemma_query_complete(tree, region, id, b, e);
}

/// What child `i` answers is part of what the first `upto` children answer,
/// for `i < upto`.
proof fn lemma_below_contains(
    tree: Tree,
    id: usize,
    b: Rectangle,
    region: Rectangle,
    upto: int,
    i: int,
    found: usize,
)
    requires
        0 <= i < upto <= 4,
        tree.children.len() == 4,
        quadrants(region)[i].overlaps(&b),
        tree.children[i].query(id, b, quadrants(region)[i]).contains(found),
    ensures
        tree.below(id, b, region, upto).contains(found),
    decreases upto,
{
    let last = upto - 1;
    let before = tree.below(id, b, region, last);
    let all = tree.below(id, b, region, upto);
    if i == last {
        let part = tree.children[i].query(id, b, quadrants(region)[i]);
        let j = choose|j: int| 0 <= j < part.len() && part[j] == found;
        assert(all[before.len() + j] == found);
    } else {
        lemma_below_contains(tree, id, b, region, last, i, found);
        let j = choose|j: int| 0 <= j < before.len() && before[j] == found;
        assert(all[j] == found);
    }
}

} // verus!
