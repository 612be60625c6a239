use collide2d::fixed::ONE;
use collide2d::geometry::Rectangle;
use collide2d::quad_tree::{Node, QuadTree, MAX_IN_NODE};

fn fx(v: f64) -> i64 {
    (v * 4294967296.0).round() as i64
}

fn rect(x: f64, y: f64, w: f64, h: f64) -> Rectangle {
    Rectangle::new(fx(x), fx(y), fx(w), fx(h))
}

fn tags(tree: &QuadTree) -> Vec<i64> {
    let mut out = Vec::new();
    tree.export(&mut out);
    out
}

#[test]
fn a_node_holds_one_entry_before_it_is_divided() {
    assert_eq!(MAX_IN_NODE, 1);
}

#[test]
fn query_of_an_empty_tree_is_empty() {
    let tree = QuadTree::new(rect(0.0, 0.0, 100.0, 100.0));
    assert_eq!(tree.might_collide(0, rect(10.0, 10.0, 5.0, 5.0)), Vec::<usize>::new());
}

#[test]
fn query_of_a_body_without_neighbours_is_empty() {
    let mut tree = QuadTree::new(rect(0.0, 0.0, 100.0, 100.0));
    tree.insert(0, rect(10.0, 10.0, 5.0, 5.0));
    assert_eq!(tree.might_collide(0, rect(10.0, 10.0, 5.0, 5.0)), Vec::<usize>::new());
}

#[test]
fn query_in_an_undivided_tree_names_the_other_entry() {
    let mut tree = QuadTree::new(rect(0.0, 0.0, 100.0, 100.0));
    tree.insert(7, rect(10.0, 10.0, 5.0, 5.0));
    assert_eq!(tree.might_collide(3, rect(80.0, 80.0, 5.0, 5.0)), vec![7]);
    assert_eq!(tags(&tree), vec![0]);
}

#[test]
fn second_entry_divides_the_node() {
    let mut tree = QuadTree::new(rect(0.0, 0.0, 100.0, 100.0));
    tree.insert(0, rect(10.0, 10.0, 5.0, 5.0));
    tree.insert(1, rect(80.0, 80.0, 5.0, 5.0));
    assert_eq!(tags(&tree), vec![ONE, 0, 0, 0, 0]);
    assert_eq!(tree.might_collide(0, rect(10.0, 10.0, 5.0, 5.0)), Vec::<usize>::new());
    assert_eq!(tree.might_collide(1, rect(80.0, 80.0, 5.0, 5.0)), Vec::<usize>::new());
    assert_eq!(tree.might_collide(2, rect(12.0, 12.0, 1.0, 1.0)), vec![0]);
    assert_eq!(tree.might_collide(2, rect(82.0, 82.0, 1.0, 1.0)), vec![1]);
    assert_eq!(tree.might_collide(2, rect(40.0, 40.0, 20.0, 20.0)), vec![0, 1]);
    assert_eq!(tree.might_collide(2, rect(80.0, 10.0, 5.0, 5.0)), Vec::<usize>::new());
}

#[test]
fn entries_in_one_quarter_divide_it_again() {
    let mut tree = QuadTree::new(rect(0.0, 0.0, 100.0, 100.0));
    tree.insert(0, rect(10.0, 10.0, 5.0, 5.0));
    tree.insert(1, rect(30.0, 30.0, 5.0, 5.0));
    assert_eq!(tags(&tree), vec![ONE, ONE, 0, 0, 0, 0, 0, 0, 0]);
    assert_eq!(tree.might_collide(5, rect(0.0, 0.0, 20.0, 20.0)), vec![0]);
    assert_eq!(tree.might_collide(5, rect(26.0, 26.0, 20.0, 20.0)), vec![1]);
    assert_eq!(tree.might_collide(5, rect(0.0, 0.0, 50.0, 50.0)), vec![0, 1]);
}

#[test]
fn entry_over_several_quarters_stays_at_the_node() {
    let mut tree = QuadTree::new(rect(0.0, 0.0, 100.0, 100.0));
    tree.insert(0, rect(10.0, 10.0, 5.0, 5.0));
    tree.insert(1, rect(45.0, 45.0, 10.0, 10.0));
    assert_eq!(tags(&tree), vec![ONE, 0, 0, 0, 0]);
    assert_eq!(tree.might_collide(2, rect(90.0, 90.0, 1.0, 1.0)), vec![1]);
    assert_eq!(tree.might_collide(2, rect(12.0, 12.0, 1.0, 1.0)), vec![1, 0]);
    assert_eq!(tree.might_collide(1, rect(45.0, 45.0, 10.0, 10.0)), vec![0]);
}

#[test]
fn entry_outside_the_region_stays_at_the_node() {
    let mut tree = QuadTree::new(rect(0.0, 0.0, 100.0, 100.0));
    tree.insert(0, rect(10.0, 10.0, 5.0, 5.0));
    tree.insert(1, rect(200.0, 200.0, 5.0, 5.0));
    assert_eq!(tree.might_collide(2, rect(90.0, 90.0, 1.0, 1.0)), vec![1]);
}

#[test]
fn query_names_every_entry_that_overlaps() {
    let boxes = [
        rect(5.0, 5.0, 10.0, 10.0),
        rect(12.0, 12.0, 10.0, 10.0),
        rect(60.0, 5.0, 10.0, 10.0),
        rect(5.0, 60.0, 10.0, 10.0),
        rect(60.0, 60.0, 10.0, 10.0),
        rect(45.0, 45.0, 10.0, 10.0),
        rect(20.0, 20.0, 4.0, 4.0),
        rect(66.0, 66.0, 30.0, 30.0),
    ];
    let mut tree = QuadTree::new(rect(0.0, 0.0, 128.0, 128.0));
    for (id, b) in boxes.iter().enumerate() {
        tree.insert(id, *b);
    }
    for (id, b) in boxes.iter().enumerate() {
        let found = tree.might_collide(id, *b);
        assert!(!found.contains(&id));
        for (other, o) in boxes.iter().enumerate() {
            if other != id && b.collides_with(o) {
                assert!(found.contains(&other));
            }
        }
        let mut sorted = found.clone();
        sorted.sort();
        sorted.dedup();
        assert_eq!(sorted.len(), found.len());
    }
}

#[test]
fn equal_boxes_end_up_in_one_node() {
    let mut tree = QuadTree::new(rect(0.0, 0.0, 64.0, 64.0));
    for id in 0..5 {
        tree.insert(id, Rectangle::new(fx(10.0), fx(10.0), 0, 0));
    }
    let mut found = tree.might_collide(9, Rectangle::new(fx(10.0), fx(10.0), 0, 0));
    found.sort();
    assert_eq!(found, vec![0, 1, 2, 3, 4]);
}

#[test]
fn node_is_used_with_its_region() {
    let region = rect(0.0, 0.0, 100.0, 100.0);
    let mut node = Node::root();
    node.insert((0, rect(10.0, 10.0, 5.0, 5.0)), region);
    node.insert((1, rect(80.0, 80.0, 5.0, 5.0)), region);
    assert_eq!(node.might_collide((2, rect(40.0, 40.0, 20.0, 20.0)), region), vec![0, 1]);
    let mut out = vec![fx(9.0)];
    node.export(&mut out);
    assert_eq!(out, vec![fx(9.0), ONE, 0, 0, 0, 0]);
}

#[test]
fn query_can_miss_an_entry_that_reaches_out_of_the_region() {
    let mut tree = QuadTree::new(rect(0.0, 0.0, 100.0, 100.0));
    tree.insert(1, rect(-10.0, 0.0, 11.0, 1.0));
    tree.insert(2, rect(60.0, 60.0, 5.0, 5.0));
    let outside = rect(-10.0, 0.0, 5.0, 1.0);
    assert!(outside.collides_with(&rect(-10.0, 0.0, 11.0, 1.0)));
    assert_eq!(tree.might_collide(0, outside), Vec::<usize>::new());
    assert_eq!(tree.might_collide(0, rect(0.0, 0.0, 5.0, 1.0)), vec![1]);
}

#[test]
fn quarters_of_a_region_of_odd_size_cover_it() {
    let mut tree = QuadTree::new(Rectangle::new(0, 0, 5, 5));
    tree.insert(1, Rectangle::new(3, 3, 2, 2));
    tree.insert(2, Rectangle::new(0, 0, 1, 1));
    assert_eq!(tree.might_collide(0, Rectangle::new(5, 5, 0, 0)), vec![1]);
    assert_eq!(tree.might_collide(0, Rectangle::new(4, 4, 0, 0)), vec![1]);
    assert_eq!(tree.might_collide(0, Rectangle::new(0, 0, 0, 0)), vec![2]);
    assert_eq!(tree.might_collide(0, Rectangle::new(0, 5, 0, 0)), Vec::<usize>::new());
}

#[test]
fn region_that_cannot_be_cut_keeps_its_entries() {
    let mut tree = QuadTree::new(Rectangle::new(0, 0, 1, 1));
    for id in 0..4 {
        tree.insert(id, Rectangle::new(1, 1, 0, 0));
    }
    assert_eq!(tags(&tree), vec![ONE, 0, 0, 0, 0]);
    let mut found = tree.might_collide(9, Rectangle::new(1, 1, 0, 0));
    found.sort();
    assert_eq!(found, vec![0, 1, 2, 3]);
    assert_eq!(tree.might_collide(9, Rectangle::new(0, 0, 0, 0)), vec![0, 1, 2, 3]);
}

#[test]
fn query_names_every_entry_within_a_region_of_any_size() {
    for side in [1i64, 2, 3, 7, 10, 33, 100, 257] {
        let mut boxes = Vec::new();
        let mut at = 0;
        while at <= side {
            boxes.push(Rectangle::new(at, side - at, 0, 0));
            boxes.push(Rectangle::new(at / 2, at / 3, side - at - (at / 2).min(side - at), 0));
            boxes.push(Rectangle::new(side - at, side, at, 0));
            at += 1 + side / 9;
        }
        let mut tree = QuadTree::new(Rectangle::new(0, 0, side, side));
        for (id, b) in boxes.iter().enumerate() {
            tree.insert(id, *b);
        }
        for (id, b) in boxes.iter().enumerate() {
            let found = tree.might_collide(id, *b);
            assert!(!found.contains(&id));
            for (other, o) in boxes.iter().enumerate() {
                if other != id && b.collides_with(o) {
                    assert!(found.contains(&other), "side {} body {} misses {}", side, id, other);
                }
            }
        }
    }
}
