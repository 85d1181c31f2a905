//! The half-open rectangle that the nodes of the tree of `quad` cover.
use vstd::prelude::*;

verus! {

/// A half-open rectangle: `x1 <= x < x2` and `y1 <= y < y2`.
pub struct Rect {
    pub x1: usize,
    pub y1: usize,
    pub x2: usize,
    pub y2: usize,
}

impl Rect {
    /// The same bounds as the tree's own rectangle type.
    pub open spec fn as_bounds(self) -> crate::qtree::Rect {
        crate::qtree::Rect { x1: self.x1, y1: self.y1, x2: self.x2, y2: self.y2 }
    }

    pub fn contains(&self, x: usize, y: usize) -> (r: bool)
        ensures
            r == self.as_bounds().holds(x as int, y as int),
    {
        x >= self.x1 && x < self.x2 && y >= self.y1 && y < self.y2
    }
}

} // verus!
