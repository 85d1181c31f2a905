use martian_sand::qtree::{Node, QuadTree, Rect};

fn leaf_len(t: &QuadTree<u32>) -> Option<usize> {
    match &t.node {
        Node::Leaf(points) => Some(points.len()),
        Node::Subtree(_) => None,
    }
}

#[test]
fn rect_contains_is_half_open() {
    let r = Rect { x1: 2, y1: 3, x2: 5, y2: 7 };
    assert!(r.contains(2, 3));
    assert!(r.contains(4, 6));
    assert!(!r.contains(5, 3));
    assert!(!r.contains(2, 7));
    assert!(!r.contains(1, 4));
    assert!(!r.contains(3, 2));
}

#[test]
fn new_tree_is_an_empty_leaf() {
    let t: QuadTree<u32> = QuadTree::new(0, 0, 10, 10, 4);
    assert_eq!(leaf_len(&t), Some(0));
    assert_eq!(t.capacity, 4);
    assert_eq!(t.get(3, 3), None);
}

#[test]
fn insert_inside_succeeds_and_outside_fails() {
    let mut t: QuadTree<u32> = QuadTree::new(2, 2, 8, 8, 4);
    assert_eq!(t.insert(2, 2, 1), Ok(()));
    assert_eq!(t.insert(7, 7, 2), Ok(()));
    assert_eq!(t.insert(8, 7, 3), Err(()));
    assert_eq!(t.insert(7, 8, 3), Err(()));
    assert_eq!(t.insert(1, 5, 3), Err(()));
    assert_eq!(t.get(2, 2), Some(1));
    assert_eq!(t.get(7, 7), Some(2));
    assert_eq!(t.get(8, 7), None);
}

#[test]
fn lookup_after_insert_at_empty_location() {
    let mut t: QuadTree<u32> = QuadTree::new(0, 0, 16, 16, 2);
    assert_eq!(t.get(5, 9), None);
    t.insert(5, 9, 42).unwrap();
    assert_eq!(t.get(5, 9), Some(42));
    assert_eq!(t.get(9, 5), None);
}

#[test]
fn first_in_first_out_at_one_location() {
    let mut t: QuadTree<u32> = QuadTree::new(0, 0, 16, 16, 3);
    t.insert(4, 4, 10).unwrap();
    t.insert(4, 4, 20).unwrap();
    assert_eq!(t.get(4, 4), Some(10));
}

#[test]
fn full_leaf_splits_into_quadrants() {
    let mut t: QuadTree<u32> = QuadTree::new(0, 0, 8, 8, 2);
    t.insert(1, 1, 1).unwrap();
    t.insert(6, 1, 2).unwrap();
    assert_eq!(leaf_len(&t), Some(2));
    t.insert(1, 6, 3).unwrap();
    match &t.node {
        Node::Subtree(quads) => {
            assert_eq!(quads.len(), 4);
            assert_eq!((quads[0].rect.x1, quads[0].rect.y1, quads[0].rect.x2, quads[0].rect.y2), (0, 0, 4, 4));
            assert_eq!((quads[1].rect.x1, quads[1].rect.y1, quads[1].rect.x2, quads[1].rect.y2), (4, 0, 8, 4));
            assert_eq!((quads[2].rect.x1, quads[2].rect.y1, quads[2].rect.x2, quads[2].rect.y2), (0, 4, 4, 8));
            assert_eq!((quads[3].rect.x1, quads[3].rect.y1, quads[3].rect.x2, quads[3].rect.y2), (4, 4, 8, 8));
            assert_eq!(leaf_len(&quads[0]), Some(1));
            assert_eq!(leaf_len(&quads[1]), Some(1));
            assert_eq!(leaf_len(&quads[2]), Some(1));
            assert_eq!(leaf_len(&quads[3]), Some(0));
            assert_eq!(quads[3].capacity, 2);
        }
        Node::Leaf(_) => panic!("the full leaf was not split"),
    }
    assert_eq!(t.get(1, 1), Some(1));
    assert_eq!(t.get(6, 1), Some(2));
    assert_eq!(t.get(1, 6), Some(3));
}

#[test]
fn odd_sized_rectangle_splits_at_the_lower_midpoint() {
    let mut t: QuadTree<u32> = QuadTree::new(1, 1, 6, 4, 1);
    t.insert(1, 1, 1).unwrap();
    t.insert(5, 3, 2).unwrap();
    match &t.node {
        Node::Subtree(quads) => {
            assert_eq!((quads[0].rect.x2, quads[0].rect.y2), (3, 2));
            assert_eq!((quads[3].rect.x1, quads[3].rect.y1), (3, 2));
        }
        Node::Leaf(_) => panic!("the full leaf was not split"),
    }
    assert_eq!(t.get(5, 3), Some(2));
}

#[test]
fn many_points_at_distinct_locations_stay_retrievable() {
    let mut t: QuadTree<u32> = QuadTree::new(0, 0, 32, 32, 2);
    for i in 0..32u32 {
        t.insert(i as usize, (i * 7 % 32) as usize, i).unwrap();
    }
    for i in 0..32u32 {
        assert_eq!(t.get(i as usize, (i * 7 % 32) as usize), Some(i));
    }
}

#[test]
fn remove_clears_column_and_row_in_the_leaf() {
    let mut t: QuadTree<u32> = QuadTree::new(0, 0, 10, 10, 10);
    t.insert(3, 4, 1).unwrap();
    t.insert(3, 7, 2).unwrap();
    t.insert(5, 4, 3).unwrap();
    t.insert(6, 6, 4).unwrap();
    assert_eq!(t.remove(3, 4), Ok(()));
    assert_eq!(t.get(3, 4), None);
    assert_eq!(t.get(3, 7), None);
    assert_eq!(t.get(5, 4), None);
    assert_eq!(t.get(6, 6), Some(4));
    assert_eq!(leaf_len(&t), Some(1));
}

#[test]
fn remove_outside_fails_and_changes_nothing() {
    let mut t: QuadTree<u32> = QuadTree::new(0, 0, 10, 10, 10);
    t.insert(3, 4, 1).unwrap();
    assert_eq!(t.remove(10, 4), Err(()));
    assert_eq!(t.get(3, 4), Some(1));
}

#[test]
fn remove_reaches_only_the_leaf_of_the_point() {
    let mut t: QuadTree<u32> = QuadTree::new(0, 0, 8, 8, 1);
    t.insert(1, 1, 1).unwrap();
    t.insert(6, 1, 2).unwrap();
    assert_eq!(t.remove(1, 1), Ok(()));
    assert_eq!(t.get(1, 1), None);
    assert_eq!(t.get(6, 1), Some(2));
}

#[test]
fn remove_then_insert_again() {
    let mut t: QuadTree<u32> = QuadTree::new(0, 0, 4, 4, 1);
    t.insert(2, 2, 7).unwrap();
    t.remove(2, 2).unwrap();
    assert_eq!(t.get(2, 2), None);
    t.insert(2, 2, 8).unwrap();
    assert_eq!(t.get(2, 2), Some(8));
}

#[test]
fn split_repeats_while_all_points_fall_in_one_quadrant() {
    let mut t: QuadTree<u32> = QuadTree::new(0, 0, 8, 8, 1);
    t.insert(1, 1, 1).unwrap();
    t.insert(2, 2, 2).unwrap();
    match &t.node {
        Node::Subtree(quads) => {
            assert_eq!(leaf_len(&quads[1]), Some(0));
            assert_eq!(leaf_len(&quads[2]), Some(0));
            assert_eq!(leaf_len(&quads[3]), Some(0));
            match &quads[0].node {
                Node::Subtree(inner) => {
                    assert_eq!((inner[0].rect.x2, inner[0].rect.y2), (2, 2));
                    assert_eq!(leaf_len(&inner[0]), Some(1));
                    assert_eq!(leaf_len(&inner[3]), Some(1));
                }
                Node::Leaf(_) => panic!("the north-west quadrant was not split"),
            }
        }
        Node::Leaf(_) => panic!("the full leaf was not split"),
    }
    assert_eq!(t.get(1, 1), Some(1));
    assert_eq!(t.get(2, 2), Some(2));
}
