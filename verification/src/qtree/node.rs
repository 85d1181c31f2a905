//! An item placed at a point, as the tree of `quad` stores it.
use vstd::prelude::*;

verus! {

/// A payload placed at a point.
#[derive(Clone)]
pub struct Node<T> where T: Clone {
    pub x: usize,
    pub y: usize,
    pub data: T,
}

impl<T> Node<T> where T: Clone {
    pub fn new(data: T, x: usize, y: usize) -> (n: Node<T>)
        ensures
            n.x == x,
            n.y == y,
            n.data == data,
    {
        Node { x, y, data }
    }
}

} // verus!
