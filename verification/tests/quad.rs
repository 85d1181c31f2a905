use martian_sand::qtree::node::Node;
use martian_sand::qtree::quad::QuadTree;
use martian_sand::qtree::space::Rect;

#[test]
fn space_rect_contains_is_half_open() {
    let r = Rect { x1: 0, y1: 0, x2: 3, y2: 3 };
    assert!(r.contains(0, 0));
    assert!(r.contains(2, 2));
    assert!(!r.contains(3, 0));
    assert!(!r.contains(0, 3));
}

#[test]
fn node_new_keeps_its_fields() {
    let n = Node::new(String::from("sand"), 4, 9);
    assert_eq!((n.x, n.y), (4, 9));
    assert_eq!(n.data, "sand");
}

#[test]
fn keeping_tree_new_is_empty() {
    let t: QuadTree<u8> = QuadTree::new(0, 0, 4, 4, 2);
    assert!(t.data.is_empty());
    assert!(t.quads.is_empty());
    assert!(t.find(1, 1).is_none());
}

#[test]
fn keeping_tree_find_after_insert() {
    let mut t: QuadTree<u8> = QuadTree::new(0, 0, 8, 8, 2);
    t.insert(Node::new(5, 3, 3));
    let found = t.find(3, 3).unwrap();
    assert_eq!((found.x, found.y, found.data), (3, 3, 5));
    assert!(t.find(3, 4).is_none());
}

#[test]
fn keeping_tree_ignores_items_outside() {
    let mut t: QuadTree<u8> = QuadTree::new(0, 0, 8, 8, 2);
    t.insert(Node::new(5, 8, 3));
    assert!(t.data.is_empty());
    assert!(t.find(8, 3).is_none());
}

#[test]
fn keeping_tree_overflow_goes_to_quadrants() {
    let mut t: QuadTree<u8> = QuadTree::new(0, 0, 8, 8, 1);
    t.insert(Node::new(1, 1, 1));
    t.insert(Node::new(2, 6, 6));
    t.insert(Node::new(3, 1, 1));
    assert_eq!(t.data.len(), 1);
    assert_eq!(t.quads.len(), 4);
    assert_eq!(t.quads[3].data.len(), 1);
    assert_eq!(t.quads[0].data.len(), 1);
    assert_eq!(t.find(6, 6).unwrap().data, 2);
    assert_eq!(t.find(1, 1).unwrap().data, 1);
}

#[test]
fn keeping_tree_single_cell_holds_many_items() {
    let mut t: QuadTree<u8> = QuadTree::new(0, 0, 1, 1, 1);
    t.insert(Node::new(1, 0, 0));
    t.insert(Node::new(2, 0, 0));
    t.insert(Node::new(3, 0, 0));
    assert_eq!(t.find(0, 0).unwrap().data, 1);
    assert_eq!(t.quads[3].find(0, 0).unwrap().data, 2);
}

#[test]
fn keeping_tree_finds_exactly_the_inserted_locations() {
    let mut t: QuadTree<u8> = QuadTree::new(0, 0, 6, 6, 1);
    let items = [(1, 1), (4, 4), (1, 1), (5, 0), (4, 4), (9, 9)];
    for (i, (x, y)) in items.iter().enumerate() {
        t.insert(Node::new(i as u8, *x, *y));
    }
    for x in 0..10 {
        for y in 0..10 {
            let expected = items.iter().position(|p| *p == (x, y) && x < 6 && y < 6);
            match t.find(x, y) {
                Some(n) => {
                    assert_eq!((n.x, n.y), (x, y));
                    assert_eq!(Some(n.data as usize), expected);
                }
                None => assert_eq!(expected, None),
            }
        }
    }
}
