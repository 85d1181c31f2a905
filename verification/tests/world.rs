use martian_sand::world::{brush_span, create_tree, emitted_to_keep, in_world, next_drawable, try_place, TREE_CAPACITY};
use martian_sand::qtree::QuadTree;

#[test]
fn next_drawable_steps_forward_and_wraps() {
    let drawable = vec![true, false, true, true];
    assert_eq!(next_drawable(&drawable, 0, 1), 2);
    assert_eq!(next_drawable(&drawable, 2, 1), 3);
    assert_eq!(next_drawable(&drawable, 3, 1), 0);
}

#[test]
fn next_drawable_steps_backward_and_wraps() {
    let drawable = vec![true, false, true, true];
    assert_eq!(next_drawable(&drawable, 0, -1), 3);
    assert_eq!(next_drawable(&drawable, 2, -1), 0);
}

#[test]
fn next_drawable_leaves_an_undrawable_selection() {
    let drawable = vec![false, true];
    assert_eq!(next_drawable(&drawable, 0, 1), 1);
    assert_eq!(next_drawable(&drawable, 0, -1), 1);
}

#[test]
fn in_world_excludes_the_border_and_dead_cells() {
    assert!(in_world(1, 1, true, 10, 10));
    assert!(in_world(9, 9, true, 10, 10));
    assert!(!in_world(0, 5, true, 10, 10));
    assert!(!in_world(5, 0, true, 10, 10));
    assert!(!in_world(10, 5, true, 10, 10));
    assert!(!in_world(5, 10, true, 10, 10));
    assert!(!in_world(5, 5, false, 10, 10));
}

#[test]
fn create_tree_indexes_cells_by_position() {
    let positions = vec![(1, 1), (5, 2), (1, 1), (9, 9)];
    let tree = create_tree(&positions, 10, 10);
    assert_eq!(tree.capacity, TREE_CAPACITY);
    assert_eq!((tree.rect.x2, tree.rect.y2), (10, 10));
    assert_eq!(tree.get(1, 1), Some(0));
    assert_eq!(tree.get(5, 2), Some(1));
    assert_eq!(tree.get(9, 9), Some(3));
    assert_eq!(tree.get(2, 2), None);
}

#[test]
fn create_tree_of_no_cells_is_empty() {
    let tree = create_tree(&vec![], 4, 4);
    assert_eq!(tree.get(0, 0), None);
}

#[test]
fn brush_span_is_clipped_at_zero() {
    assert_eq!(brush_span(10, 4), (6, 14));
    assert_eq!(brush_span(3, 4), (0, 7));
    assert_eq!(brush_span(4, 4), (0, 8));
}

#[test]
fn try_place_fills_only_free_points_of_the_world() {
    let mut tree: QuadTree<usize> = QuadTree::new(0, 0, 8, 8, TREE_CAPACITY);
    assert!(try_place(&mut tree, 2, 3, 8, 8, 0));
    assert_eq!(tree.get(2, 3), Some(0));
    assert!(!try_place(&mut tree, 2, 3, 8, 8, 1));
    assert_eq!(tree.get(2, 3), Some(0));
    assert!(!try_place(&mut tree, 8, 3, 8, 8, 1));
    assert!(!try_place(&mut tree, 3, 6, 8, 6, 1));
    assert_eq!(tree.get(3, 6), None);
}

#[test]
fn emitted_cells_join_only_free_positions() {
    let mut tree: QuadTree<usize> = QuadTree::new(0, 0, 8, 8, TREE_CAPACITY);
    tree.insert(2, 2, 0).unwrap();
    let keep = emitted_to_keep(&tree, &vec![(2, 2), (3, 3), (3, 3), (9, 9)]);
    assert_eq!(keep, vec![false, true, true, true]);
}

#[test]
fn selecting_down_then_up_returns() {
    let drawable = vec![true, false, true, false, true];
    for s in [0usize, 2, 4] {
        let down = next_drawable(&drawable, s, 1);
        assert_eq!(next_drawable(&drawable, down, -1), s);
        let up = next_drawable(&drawable, s, -1);
        assert_eq!(next_drawable(&drawable, up, 1), s);
    }
}
