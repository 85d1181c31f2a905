//! A quad tree of items in which every node keeps up to `capacity` items of
//! its own, and only the items that arrive once it is full go down to its
//! four quadrants.
use crate::qtree::node::Node;
use crate::qtree::space::Rect;
use crate::qtree::{lemma_quadrants, quadrant, quadrant_index, quadrant_of};
use vstd::prelude::*;

verus! {

/// The items of `s` that sit at `(x, y)`, in order.
pub open spec fn nodes_at<T: Clone>(s: Seq<Node<T>>, x: int, y: int) -> Seq<Node<T>>
    decreases s.len(),
{
    if s.len() == 0 {
        Seq::empty()
    } else {
        let n = s.last();
        nodes_at(s.drop_last(), x, y) + if n.x == x && n.y == y {
            seq![n]
        } else {
            Seq::empty()
        }
    }
}

/// Appending an item appends it at its own location only.
pub proof fn lemma_nodes_at_push<T: Clone>(s: Seq<Node<T>>, n: Node<T>, x: int, y: int)
    ensures
        nodes_at(s.push(n), x, y) == nodes_at(s, x, y) + if n.x == x && n.y == y {
            seq![n]
        } else {
            Seq::<Node<T>>::empty()
        },
{
    assert(s.push(n).drop_last() =~= s);
}

/// `nodes_at` distributes over concatenation.
pub proof fn lemma_nodes_at_concat<T: Clone>(a: Seq<Node<T>>, b: Seq<Node<T>>, x: int, y: int)
    ensures
        nodes_at(a + b, x, y) == nodes_at(a, x, y) + nodes_at(b, x, y),
    decreases b.len(),
{
    if b.len() == 0 {
        assert(a + b =~= a);
        assert(nodes_at(a, x, y) + nodes_at(b, x, y) =~= nodes_at(a, x, y));
    } else {
        lemma_nodes_at_concat(a, b.drop_last(), x, y);
        assert((a + b).drop_last() =~= a + b.drop_last());
        assert((a + b).last() == b.last());
        let tail = if b.last().x == x && b.last().y == y {
            seq![b.last()]
        } else {
            Seq::<Node<T>>::empty()
        };
        assert(nodes_at(a, x, y) + nodes_at(b.drop_last(), x, y) + tail =~= nodes_at(a, x, y) + (
        nodes_at(b.drop_last(), x, y) + tail));
    }
}

/// An empty sequence holds nothing anywhere.
pub proof fn lemma_nodes_at_empty<T: Clone>(x: int, y: int)
    ensures
        nodes_at(Seq::<Node<T>>::empty(), x, y) == Seq::<Node<T>>::empty(),
{
}

pub struct QuadTree<T> where T: Clone {
    pub rect: Rect,
    pub capacity: usize,
    pub data: Vec<Node<T>>,
    pub quads: Vec<QuadTree<T>>,
}

impl<T: Clone> QuadTree<T> {
    /// The items stored at `(x, y)`: those the node keeps, oldest first, then
    /// those of the quadrant that holds the point.
    pub open spec fn at(self, x: int, y: int) -> Seq<Node<T>>
        decreases self,
    {
        if !self.rect.as_bounds().holds(x, y) {
            Seq::empty()
        } else {
            let k = quadrant_index(self.rect.as_bounds(), x, y);
            nodes_at(self.data@, x, y) + if self.quads.len() == 4 && 0 <= k < 4 {
                self.quads@[k].at(x, y)
            } else {
                Seq::empty()
            }
        }
    }

    /// The number of items in the tree.
    pub open spec fn size(self) -> nat
        decreases self,
    {
        self.data@.len() + if self.quads.len() == 4 {
            self.quads@[0].size() + self.quads@[1].size() + self.quads@[2].size()
                + self.quads@[3].size()
        } else {
            0nat
        }
    }

    /// A child of a split node: quadrant `i` of its parent, with the parent's capacity.
    pub open spec fn child_ok(self, quads: Seq<QuadTree<T>>, i: int) -> bool {
        &&& quads[i].rect.as_bounds() == quadrant(self.rect.as_bounds(), i)
        &&& quads[i].capacity == self.capacity
    }

    /// The tree's invariant: a node keeps at most `capacity` items, all inside
    /// its rectangle; a node has quadrants only once it keeps `capacity` items,
    /// and then exactly its four quadrants.
    pub open spec fn wf(self) -> bool
        decreases self,
    {
        &&& self.data.len() <= self.capacity
        &&& forall|i: int|
            0 <= i < self.data.len() ==> self.rect.as_bounds().holds(
                (#[trigger] self.data@[i]).x as int,
                self.data@[i].y as int,
            )
        &&& (self.quads.len() == 0 || {
            &&& self.quads.len() == 4
            &&& self.capacity > 0
            &&& self.data.len() >= self.capacity
            &&& self.rect.x1 < self.rect.x2
            &&& self.rect.y1 < self.rect.y2
            &&& self.child_ok(self.quads@, 0)
            &&& self.child_ok(self.quads@, 1)
            &&& self.child_ok(self.quads@, 2)
            &&& self.child_ok(self.quads@, 3)
            &&& self.quads@[0].wf()
            &&& self.quads@[1].wf()
            &&& self.quads@[2].wf()
            &&& self.quads@[3].wf()
        })
    }

    /// `after` is `before` with `n` stored behind what was at its location.
    pub open spec fn stored_after_insert(before: Self, after: Self, n: Node<T>) -> bool {
        forall|a: int, c: int|
            #[trigger] after.at(a, c) == if a == n.x && c == n.y {
                before.at(a, c).push(n)
            } else {
                before.at(a, c)
            }
    }

    /// `t` is an empty quadrant `j` of `parent`.
    pub open spec fn fresh(t: Self, parent: Self, j: int) -> bool {
        &&& t.rect.as_bounds() == quadrant(parent.rect.as_bounds(), j)
        &&& t.capacity == parent.capacity
        &&& t.data@.len() == 0
        &&& t.quads@.len() == 0
    }

    /// `after` is `before` once `n` has gone down to the first node with room:
    /// the node itself while it keeps fewer than `capacity` items, else the
    /// quadrant that holds the item, made on the spot when the node had none.
    pub open spec fn placed(before: Self, after: Self, n: Node<T>) -> bool
        decreases before,
    {
        let k = quadrant_index(before.rect.as_bounds(), n.x as int, n.y as int);
        &&& after.rect == before.rect
        &&& after.capacity == before.capacity
        &&& if !before.rect.as_bounds().holds(n.x as int, n.y as int) {
            after == before
        } else if before.data.len() < before.capacity {
            after.data@ == before.data@.push(n) && after.quads == before.quads
        } else {
            &&& after.data == before.data
            &&& after.quads.len() == 4
            &&& 0 <= k < 4
            &&& forall|j: int|
                0 <= j < 4 && j != k ==> if before.quads.len() == 4 {
                    #[trigger] after.quads@[j] == before.quads@[j]
                } else {
                    Self::fresh(after.quads@[j], before, j)
                }
            &&& if before.quads.len() == 4 {
                Self::placed(before.quads@[k], after.quads@[k], n)
            } else {
                &&& after.quads@[k].rect.as_bounds() == quadrant(before.rect.as_bounds(), k)
                &&& after.quads@[k].capacity == before.capacity
                &&& after.quads@[k].data@ == seq![n]
                &&& after.quads@[k].quads@.len() == 0
            }
        }
    }

    /// An empty tree over the rectangle from `(x1, y1)` up to, not including, `(x2, y2)`.
    pub fn new(x1: usize, y1: usize, x2: usize, y2: usize, capacity: usize) -> (tree: QuadTree<T>)
        ensures
            tree.wf(),
            tree.rect == (Rect { x1, y1, x2, y2 }),
            tree.capacity == capacity,
            tree.data@.len() == 0,
            tree.quads@.len() == 0,
            tree.size() == 0,
            forall|x: int, y: int| #[trigger] tree.at(x, y) == Seq::<Node<T>>::empty(),
    {
        let rect = Rect { x1, y1, x2, y2 };
        let tree = QuadTree { rect, capacity, data: Vec::new(), quads: Vec::new() };
        assert forall|x: int, y: int| #[trigger] tree.at(x, y) == Seq::<Node<T>>::empty() by {
            lemma_nodes_at_empty::<T>(x, y);
            assert(tree.data@ =~= Seq::<Node<T>>::empty());
        }
        tree
    }

    /// Gives a full node its four quadrants, empty.
    fn subdivide(&mut self)
        requires
            old(self).wf(),
            old(self).quads.len() == 0,
            old(self).capacity > 0,
            old(self).data.len() >= old(self).capacity,
            old(self).rect.x1 < old(self).rect.x2,
            old(self).rect.y1 < old(self).rect.y2,
        ensures
            final(self).wf(),
            final(self).quads.len() == 4,
            final(self).rect == old(self).rect,
            final(self).capacity == old(self).capacity,
            final(self).data == old(self).data,
            final(self).size() == old(self).size(),
            forall|a: int, c: int| #[trigger] final(self).at(a, c) == old(self).at(a, c),
            forall|j: int| 0 <= j < 4 ==> Self::fresh(#[trigger] final(self).quads@[j], *old(self), j),
    {
        let x1 = self.rect.x1;
        let y1 = self.rect.y1;
        let x2 = self.rect.x2;
        let y2 = self.rect.y2;
        let capacity = self.capacity;
        let mx = x1 + (x2 - x1) / 2;
        let my = y1 + (y2 - y1) / 2;
        let nw = QuadTree::new(x1, y1, mx, my, capacity);
        let ne = QuadTree::new(mx, y1, x2, my, capacity);
        let sw = QuadTree::new(x1, my, mx, y2, capacity);
        let se = QuadTree::new(mx, my, x2, y2, capacity);
        let ghost start = *self;
        self.quads.push(nw);
        self.quads.push(ne);
        self.quads.push(sw);
        self.quads.push(se);
        proof {
            assert(self.quads@[0] == nw);
            assert(self.quads@[1] == ne);
            assert(self.quads@[2] == sw);
            assert(self.quads@[3] == se);
            assert forall|a: int, c: int| #[trigger] self.at(a, c) == start.at(a, c) by {
                lemma_quadrants(start.rect.as_bounds(), a, c);
                if start.rect.as_bounds().holds(a, c) {
                    let k = quadrant_index(start.rect.as_bounds(), a, c);
                    assert(self.quads@[k].at(a, c) == Seq::<Node<T>>::empty());
                    assert(nodes_at(self.data@, a, c) + Seq::<Node<T>>::empty() =~= nodes_at(
                        self.data@,
                        a,
                        c,
                    ));
                    assert(nodes_at(start.data@, a, c) + Seq::<Node<T>>::empty() =~= nodes_at(
                        start.data@,
                        a,
                        c,
                    ));
                }
            }
        }
    }

    /// Stores `node` in the first node on its way down that has room; does
    /// nothing when the item lies outside the tree's rectangle.
    ///
    /// A tree of capacity 0 never finds room, so the item must lie outside
    /// its rectangle there.
    pub fn insert(&mut self, node: Node<T>)
        requires
            old(self).wf(),
            old(self).rect.as_bounds().holds(node.x as int, node.y as int) ==> old(self).capacity
                > 0,
        ensures
            final(self).wf(),
            final(self).rect == old(self).rect,
            final(self).capacity == old(self).capacity,
            old(self).rect.as_bounds().holds(node.x as int, node.y as int) ==> Self::stored_after_insert(
                *old(self),
                *final(self),
                node,
            ),
            old(self).rect.as_bounds().holds(node.x as int, node.y as int) ==> final(self).size()
                == old(self).size() + 1,
            !old(self).rect.as_bounds().holds(node.x as int, node.y as int) ==> *final(self) == *old(
                self,
            ),
            Self::placed(*old(self), *final(self), node),
        decreases old(self).size(),
    {
        if !self.rect.contains(node.x, node.y) {
            return ;
        }
        let ghost start = *self;
        let ghost n = node;
        if self.data.len() < self.capacity {
            proof {
                assert forall|a: int, c: int| #[trigger] nodes_at(self.data@.push(n), a, c) == if a
                    == n.x && c == n.y {
                    nodes_at(self.data@, a, c).push(n)
                } else {
                    nodes_at(self.data@, a, c)
                } by {
                    lemma_nodes_at_push(self.data@, n, a, c);
                    assert(nodes_at(self.data@, a, c) + Seq::<Node<T>>::empty() =~= nodes_at(
                        self.data@,
                        a,
                        c,
                    ));
                }
            }
            self.data.push(node);
            proof {
                assert forall|a: int, c: int| #[trigger] self.at(a, c) == if a == n.x && c == n.y {
                    start.at(a, c).push(n)
                } else {
                    start.at(a, c)
                } by {
                    if start.rect.as_bounds().holds(a, c) {
                        assert(nodes_at(self.data@, a, c) + Seq::<Node<T>>::empty() =~= nodes_at(
                            self.data@,
                            a,
                            c,
                        ));
                        assert(nodes_at(start.data@, a, c) + Seq::<Node<T>>::empty() =~= nodes_at(
                            start.data@,
                            a,
                            c,
                        ));
                    }
                }
            }
            return ;
        }
        if self.quads.len() == 0 {
            self.subdivide();
        }
        let ghost mid = *self;
        let bounds = crate::qtree::Rect {
            x1: self.rect.x1,
            y1: self.rect.y1,
            x2: self.rect.x2,
            y2: self.rect.y2,
        };
        let k = quadrant_of(&bounds, node.x, node.y);
        proof {
            lemma_quadrants(mid.rect.as_bounds(), n.x as int, n.y as int);
            assert(mid.child_ok(mid.quads@, k as int));
            assert(mid.quads@[k as int].size() < mid.size());
        }
        let mut quads = Vec::new();
        std::mem::swap(&mut quads, &mut self.quads);
        let ghost before = quads@;
        quads[k].insert(node);
        self.quads = quads;
        proof {
            assert(self.quads@ == before.update(k as int, self.quads@[k as int]));
            assert(self.child_ok(self.quads@, 0));
            assert(self.child_ok(self.quads@, 1));
            assert(self.child_ok(self.quads@, 2));
            assert(self.child_ok(self.quads@, 3));
            assert forall|a: int, c: int| #[trigger] self.at(a, c) == if a == n.x && c == n.y {
                start.at(a, c).push(n)
            } else {
                start.at(a, c)
            } by {
                lemma_quadrants(mid.rect.as_bounds(), a, c);
                if mid.rect.as_bounds().holds(a, c) {
                    let j = quadrant_index(mid.rect.as_bounds(), a, c);
                    assert(quadrant(mid.rect.as_bounds(), j).holds(a, c));
                    assert(self.at(a, c) == nodes_at(self.data@, a, c) + self.quads@[j].at(a, c));
                    assert(mid.at(a, c) == nodes_at(mid.data@, a, c) + before[j].at(a, c));
                    assert(mid.at(a, c) == start.at(a, c));
                    if j == k {
                        if a == n.x && c == n.y {
                            assert(self.quads@[j].at(a, c) == before[j].at(a, c).push(n));
                            assert(nodes_at(mid.data@, a, c) + before[j].at(a, c).push(n) =~= (
                            nodes_at(mid.data@, a, c) + before[j].at(a, c)).push(n));
                        }
                    } else {
                        assert(self.quads@[j] == before[j]);
                    }
                }
            }
            let kk = k as int;
            assert(kk == quadrant_index(start.rect.as_bounds(), n.x as int, n.y as int));
            assert(self.data == start.data);
            if start.quads.len() == 4 {
                assert(before == start.quads@);
                assert forall|j: int| 0 <= j < 4 && j != kk implies #[trigger] self.quads@[j] == start.quads@[j] by {
                    assert(self.quads@[j] == before[j]);
                }
            } else {
                assert forall|j: int| 0 <= j < 4 && j != kk implies Self::fresh(#[trigger] self.quads@[j], start, j) by {
                    assert(self.quads@[j] == before[j]);
                    assert(Self::fresh(before[j], mid, j));
                }
                assert(Self::fresh(before[kk], mid, kk));
                assert(before[kk].rect.as_bounds().holds(n.x as int, n.y as int));
                assert(self.quads@[kk].data@ =~= seq![n]);
            }
        }
    }

    /// The oldest item at `(x, y)`, if any.
    pub fn find(&self, x: usize, y: usize) -> (r: Option<&Node<T>>)
        requires
            self.wf(),
        ensures
            r is Some <==> self.at(x as int, y as int).len() > 0,
            r is Some ==> *r.unwrap() == self.at(x as int, y as int)[0],
        decreases self.size(),
    {
        if !self.rect.contains(x, y) {
            return None;
        }
        let mut i: usize = 0;
        while i < self.data.len()
            invariant
                self.wf(),
                self.rect.as_bounds().holds(x as int, y as int),
                0 <= i <= self.data.len(),
                nodes_at(self.data@.take(i as int), x as int, y as int) == Seq::<Node<T>>::empty(),
            decreases self.data.len() - i,
        {
            let n = &self.data[i];
            proof {
                assert(self.data@.take(i as int + 1) =~= self.data@.take(i as int).push(*n));
                lemma_nodes_at_push(self.data@.take(i as int), *n, x as int, y as int);
            }
            if n.x == x && n.y == y {
                proof {
                    assert(self.data@ =~= self.data@.take(i as int + 1) + self.data@.skip(
                        i as int + 1,
                    ));
                    lemma_nodes_at_concat(
                        self.data@.take(i as int + 1),
                        self.data@.skip(i as int + 1),
                        x as int,
                        y as int,
                    );
                }
                return Some(n);
            }
            i = i + 1;
        }
        proof {
            assert(self.data@.take(i as int) =~= self.data@);
            assert(Seq::<Node<T>>::empty() + self.at(x as int, y as int) =~= self.at(
                x as int,
                y as int,
            ));
        }
        let ghost k = quadrant_index(self.rect.as_bounds(), x as int, y as int);
        let mut found: Option<&Node<T>> = None;
        let mut j: usize = 0;
        while j < self.quads.len()
            invariant
                self.wf(),
                self.rect.as_bounds().holds(x as int, y as int),
                0 <= j <= self.quads.len(),
                self.quads.len() == 4 ==> 0 <= k < 4 && forall|i: int|
                    0 <= i < 4 ==> ((#[trigger] quadrant(self.rect.as_bounds(), i)).holds(
                        x as int,
                        y as int,
                    ) <==> i == k),
                found is Some ==> k < j && self.quads@[k].at(x as int, y as int).len() > 0 && *found.unwrap()
                    == self.quads@[k].at(x as int, y as int)[0],
                found is None ==> (k < j ==> self.quads@[k].at(x as int, y as int).len() == 0),
            decreases self.quads.len() - j,
        {
            proof {
                lemma_quadrants(self.rect.as_bounds(), x as int, y as int);
                assert(self.child_ok(self.quads@, j as int));
                assert(self.quads@[j as int].size() < self.size());
            }
            let r = self.quads[j].find(x, y);
            if let Some(n) = r {
                assert(quadrant(self.rect.as_bounds(), j as int).holds(x as int, y as int));
                found = Some(n);
            }
            j = j + 1;
        }
        found
    }
}


/// An item stored at a location that held nothing is the one a search there finds.
pub proof fn law_find_after_insert<T: Clone>(before: QuadTree<T>, after: QuadTree<T>, n: Node<T>)
    requires
        before.at(n.x as int, n.y as int).len() == 0,
        QuadTree::stored_after_insert(before, after, n),
    ensures
        after.at(n.x as int, n.y as int).len() > 0,
        after.at(n.x as int, n.y as int)[0] == n,
{
    assert(after.at(n.x as int, n.y as int) == before.at(n.x as int, n.y as int).push(n));
}


/// `nodes_at` keeps exactly the items at `(x, y)`: it is empty just when no
/// item is there, and everything it keeps is there.
pub proof fn lemma_nodes_at_here<T: Clone>(s: Seq<Node<T>>, x: int, y: int)
    ensures
        nodes_at(s, x, y).len() > 0 <==> exists|i: int|
            0 <= i < s.len() && (#[trigger] s[i]).x == x && s[i].y == y,
        forall|j: int|
            0 <= j < nodes_at(s, x, y).len() ==> (#[trigger] nodes_at(s, x, y)[j]).x == x
                && nodes_at(s, x, y)[j].y == y,
    decreases s.len(),
{
    if s.len() > 0 {
        let p = s.drop_last();
        lemma_nodes_at_here(p, x, y);
        let n = s.last();
        if nodes_at(p, x, y).len() > 0 {
            let i = choose|i: int| 0 <= i < p.len() && (#[trigger] p[i]).x == x && p[i].y == y;
            assert(s[i] == p[i]);
        }
        if n.x == x && n.y == y {
            assert(s[s.len() - 1] == n);
        } else {
            assert(nodes_at(s, x, y) =~= nodes_at(p, x, y));
            if exists|i: int| 0 <= i < s.len() && (#[trigger] s[i]).x == x && s[i].y == y {
                let i = choose|i: int| 0 <= i < s.len() && (#[trigger] s[i]).x == x && s[i].y == y;
                assert(i < p.len());
                assert(p[i] == s[i]);
            }
        }
        let q = nodes_at(s, x, y);
        assert forall|j: int| 0 <= j < q.len() implies (#[trigger] q[j]).x == x && q[j].y == y by {
            if j < nodes_at(p, x, y).len() {
                assert(q[j] == nodes_at(p, x, y)[j]);
            }
        }
    }
}

/// `trees` runs from `trees[0]` through one insertion of each item of `ns`, in order.
pub open spec fn inserted_in_turn<T: Clone>(trees: Seq<QuadTree<T>>, ns: Seq<Node<T>>) -> bool {
    &&& trees.len() == ns.len() + 1
    &&& forall|i: int|
        0 <= i < ns.len() ==> {
            &&& trees[i + 1].rect == (#[trigger] trees[i]).rect
            &&& if trees[i].rect.as_bounds().holds(ns[i].x as int, ns[i].y as int) {
                QuadTree::stored_after_insert(trees[i], trees[i + 1], ns[i])
            } else {
                trees[i + 1] == trees[i]
            }
        }
}

/// After the first `i` insertions, a location of the rectangle holds the
/// items inserted there so far, in order.
proof fn lemma_inserted_prefix<T: Clone>(trees: Seq<QuadTree<T>>, ns: Seq<Node<T>>, i: int, x: int, y: int)
    requires
        inserted_in_turn(trees, ns),
        0 <= i <= ns.len(),
        forall|a: int, c: int| #[trigger] trees[0].at(a, c) == Seq::<Node<T>>::empty(),
    ensures
        trees[i].rect == trees[0].rect,
        trees[i].at(x, y) == if trees[0].rect.as_bounds().holds(x, y) {
            nodes_at(ns.take(i), x, y)
        } else {
            Seq::<Node<T>>::empty()
        },
    decreases i,
{
    if i == 0 {
        assert(ns.take(0) =~= Seq::<Node<T>>::empty());
        assert(trees[0].at(x, y) == Seq::<Node<T>>::empty());
    } else {
        lemma_inserted_prefix(trees, ns, i - 1, x, y);
        let t = trees[i - 1];
        let n = ns[i - 1];
        assert(trees[i].rect == t.rect);
        assert(ns.take(i) =~= ns.take(i - 1).push(n));
        lemma_nodes_at_push(ns.take(i - 1), n, x, y);
        let tail = if n.x == x && n.y == y {
            seq![n]
        } else {
            Seq::<Node<T>>::empty()
        };
        if t.rect.as_bounds().holds(n.x as int, n.y as int) {
            assert(trees[i].at(x, y) == if x == n.x && y == n.y {
                t.at(x, y).push(n)
            } else {
                t.at(x, y)
            });
            if trees[0].rect.as_bounds().holds(x, y) {
                if n.x == x && n.y == y {
                    assert(nodes_at(ns.take(i - 1), x, y) + tail =~= nodes_at(ns.take(i - 1), x, y).push(n));
                } else {
                    assert(nodes_at(ns.take(i - 1), x, y) + tail =~= nodes_at(ns.take(i - 1), x, y));
                }
            }
        } else {
            assert(trees[i] == t);
            if trees[0].rect.as_bounds().holds(x, y) {
                assert(!(n.x == x && n.y == y));
                assert(nodes_at(ns.take(i - 1), x, y) + tail =~= nodes_at(ns.take(i - 1), x, y));
            }
        }
    }
}

/// After a run of insertions into an empty tree, a search at `(x, y)` finds
/// something exactly when `(x, y)` lies in the tree's rectangle and some item
/// was inserted there; what it finds sits at `(x, y)`, and the items there are
/// those inserted there, oldest first.
pub proof fn law_find_after_inserts<T: Clone>(trees: Seq<QuadTree<T>>, ns: Seq<Node<T>>, x: int, y: int)
    requires
        inserted_in_turn(trees, ns),
        forall|a: int, c: int| #[trigger] trees[0].at(a, c) == Seq::<Node<T>>::empty(),
    ensures
        trees.last().at(x, y) == if trees[0].rect.as_bounds().holds(x, y) {
            nodes_at(ns, x, y)
        } else {
            Seq::<Node<T>>::empty()
        },
        trees.last().at(x, y).len() > 0 <==> trees[0].rect.as_bounds().holds(x, y) && exists|i: int|
            0 <= i < ns.len() && (#[trigger] ns[i]).x == x && ns[i].y == y,
        forall|j: int|
            0 <= j < trees.last().at(x, y).len() ==> (#[trigger] trees.last().at(x, y)[j]).x == x
                && trees.last().at(x, y)[j].y == y,
{
    lemma_inserted_prefix(trees, ns, ns.len() as int, x, y);
    assert(ns.take(ns.len() as int) =~= ns);
    lemma_nodes_at_here(ns, x, y);
}

} // verus!
