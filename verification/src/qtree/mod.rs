//! A point quad tree over a rectangle of integer coordinates.
//!
//! Each node covers a half-open rectangle. A leaf keeps up to `capacity`
//! points; when a full leaf receives another point it is split into four
//! quadrants and its points are handed down to them.
pub mod node;
pub mod quad;
pub mod space;

use vstd::prelude::*;

verus! {

/// A half-open rectangle: `x1 <= x < x2` and `y1 <= y < y2`.
#[derive(Clone)]
pub struct Rect {
    pub x1: usize,
    pub y1: usize,
    pub x2: usize,
    pub y2: usize,
}

impl Rect {
    /// The point `(x, y)` lies in the rectangle.
    pub open spec fn holds(self, x: int, y: int) -> bool {
        self.x1 <= x < self.x2 && self.y1 <= y < self.y2
    }

    /// Neither side is negative.
    pub open spec fn ordered(self) -> bool {
        self.x1 <= self.x2 && self.y1 <= self.y2
    }

    /// Width plus height; the measure that shrinks from a node to its quadrants.
    pub open spec fn span(self) -> int {
        (self.x2 - self.x1) + (self.y2 - self.y1)
    }

    pub fn contains(&self, x: usize, y: usize) -> (r: bool)
        ensures
            r == self.holds(x as int, y as int),
    {
        x >= self.x1 && x < self.x2 && y >= self.y1 && y < self.y2
    }
}

/// The point halfway between `lo` and `hi`, rounded down.
pub open spec fn midpoint(lo: usize, hi: usize) -> usize {
    ((lo + hi) / 2) as usize
}

/// Quadrant `i` of `r`: 0 is north-west, 1 north-east, 2 south-west, 3 south-east.
pub open spec fn quadrant(r: Rect, i: int) -> Rect {
    let mx = midpoint(r.x1, r.x2);
    let my = midpoint(r.y1, r.y2);
    if i == 0 {
        Rect { x1: r.x1, y1: r.y1, x2: mx, y2: my }
    } else if i == 1 {
        Rect { x1: mx, y1: r.y1, x2: r.x2, y2: my }
    } else if i == 2 {
        Rect { x1: r.x1, y1: my, x2: mx, y2: r.y2 }
    } else {
        Rect { x1: mx, y1: my, x2: r.x2, y2: r.y2 }
    }
}

/// The index of the quadrant of `r` that holds `(x, y)`.
pub open spec fn quadrant_index(r: Rect, x: int, y: int) -> int {
    let mx = midpoint(r.x1, r.x2);
    let my = midpoint(r.y1, r.y2);
    if x < mx {
        if y < my { 0 } else { 2 }
    } else {
        if y < my { 1 } else { 3 }
    }
}

/// The four quadrants of an ordered rectangle partition it.
pub proof fn lemma_quadrants(r: Rect, x: int, y: int)
    requires
        r.ordered(),
    ensures
        0 <= quadrant_index(r, x, y) < 4,
        forall|i: int| 0 <= i < 4 ==> (#[trigger] quadrant(r, i)).ordered(),
        forall|i: int|
            0 <= i < 4 ==> (#[trigger] quadrant(r, i)).holds(x, y) ==> r.holds(x, y),
        r.holds(x, y) ==> forall|i: int|
            0 <= i < 4 ==> ((#[trigger] quadrant(r, i)).holds(x, y) <==> i == quadrant_index(
                r,
                x,
                y,
            )),
{
}

/// A quadrant of a rectangle that is not a single cell has a smaller span.
pub proof fn lemma_quadrant_span(r: Rect)
    requires
        r.x1 < r.x2,
        r.y1 < r.y2,
        r.x2 - r.x1 >= 2 || r.y2 - r.y1 >= 2,
    ensures
        forall|i: int| 0 <= i < 4 ==> 0 <= (#[trigger] quadrant(r, i)).span() < r.span(),
{
}

/// A point stored in the tree, with its payload.
pub struct Point<T> {
    pub x: usize,
    pub y: usize,
    pub data: T,
}

/// The payloads of the points of `s` that sit at `(x, y)`, in order.
pub open spec fn data_at<T>(s: Seq<Point<T>>, x: int, y: int) -> Seq<T>
    decreases s.len(),
{
    if s.len() == 0 {
        Seq::empty()
    } else {
        let p = s.last();
        data_at(s.drop_last(), x, y) + if p.x == x && p.y == y {
            seq![p.data]
        } else {
            Seq::empty()
        }
    }
}

/// Appending a point appends its payload at its own location only.
pub proof fn lemma_data_at_push<T>(s: Seq<Point<T>>, p: Point<T>, x: int, y: int)
    ensures
        data_at(s.push(p), x, y) == data_at(s, x, y) + if p.x == x && p.y == y {
            seq![p.data]
        } else {
            Seq::<T>::empty()
        },
{
    assert(s.push(p).drop_last() =~= s);
}

/// `data_at` distributes over concatenation.
pub proof fn lemma_data_at_concat<T>(a: Seq<Point<T>>, b: Seq<Point<T>>, x: int, y: int)
    ensures
        data_at(a + b, x, y) == data_at(a, x, y) + data_at(b, x, y),
    decreases b.len(),
{
    if b.len() == 0 {
        assert(a + b =~= a);
        assert(data_at(b, x, y) =~= Seq::<T>::empty());
        assert(data_at(a, x, y) + data_at(b, x, y) =~= data_at(a, x, y));
    } else {
        lemma_data_at_concat(a, b.drop_last(), x, y);
        assert((a + b).drop_last() =~= a + b.drop_last());
        assert((a + b).last() == b.last());
        let tail = if b.last().x == x && b.last().y == y {
            seq![b.last().data]
        } else {
            Seq::<T>::empty()
        };
        assert(data_at(a, x, y) + data_at(b.drop_last(), x, y) + tail =~= data_at(a, x, y) + (
        data_at(b.drop_last(), x, y) + tail));
    }
}

/// When every point of `s` sits at `(x, y)`, each contributes its payload.
pub proof fn lemma_data_at_all_here<T>(s: Seq<Point<T>>, x: int, y: int)
    requires
        forall|i: int| 0 <= i < s.len() ==> (#[trigger] s[i]).x == x && s[i].y == y,
    ensures
        data_at(s, x, y).len() == s.len(),
    decreases s.len(),
{
    if s.len() > 0 {
        lemma_data_at_all_here(s.drop_last(), x, y);
    }
}

/// When no point of `s` sits at `(x, y)`, nothing is found there.
pub proof fn lemma_data_at_none_here<T>(s: Seq<Point<T>>, x: int, y: int)
    requires
        forall|i: int| 0 <= i < s.len() ==> !((#[trigger] s[i]).x == x && s[i].y == y),
    ensures
        data_at(s, x, y) == Seq::<T>::empty(),
    decreases s.len(),
{
    if s.len() > 0 {
        lemma_data_at_none_here(s.drop_last(), x, y);
        assert(data_at(s, x, y) =~= Seq::<T>::empty());
    }
}

/// How many points of `s` lie in `r`.
pub open spec fn count_in<T>(s: Seq<Point<T>>, r: Rect) -> nat
    decreases s.len(),
{
    if s.len() == 0 {
        0
    } else {
        count_in(s.drop_last(), r) + if r.holds(s.last().x as int, s.last().y as int) {
            1nat
        } else {
            0nat
        }
    }
}

/// Appending a point counts it in exactly the rectangles that hold it.
pub proof fn lemma_count_in_push<T>(s: Seq<Point<T>>, p: Point<T>, r: Rect)
    ensures
        count_in(s.push(p), r) == count_in(s, r) + if r.holds(p.x as int, p.y as int) {
            1nat
        } else {
            0nat
        },
{
    assert(s.push(p).drop_last() =~= s);
}

/// When every point of `s` lies in `r`, all of them are counted.
pub proof fn lemma_count_in_all<T>(s: Seq<Point<T>>, r: Rect)
    requires
        forall|i: int| 0 <= i < s.len() ==> r.holds((#[trigger] s[i]).x as int, s[i].y as int),
    ensures
        count_in(s, r) == s.len(),
    decreases s.len(),
{
    if s.len() > 0 {
        lemma_count_in_all(s.drop_last(), r);
    }
}

/// The points of `s` that lie in `r`, in order.
pub open spec fn filter_in<T>(s: Seq<Point<T>>, r: Rect) -> Seq<Point<T>>
    decreases s.len(),
{
    if s.len() == 0 {
        Seq::empty()
    } else {
        filter_in(s.drop_last(), r) + if r.holds(s.last().x as int, s.last().y as int) {
            seq![s.last()]
        } else {
            Seq::empty()
        }
    }
}

/// Appending a point keeps it exactly where the rectangle holds it.
pub proof fn lemma_filter_in_push<T>(s: Seq<Point<T>>, p: Point<T>, r: Rect)
    ensures
        filter_in(s.push(p), r) == filter_in(s, r) + if r.holds(p.x as int, p.y as int) {
            seq![p]
        } else {
            Seq::<Point<T>>::empty()
        },
{
    assert(s.push(p).drop_last() =~= s);
}

/// Keeping the points of a rectangle keeps all of a sequence that lies in it.
pub proof fn lemma_filter_in_all<T>(s: Seq<Point<T>>, r: Rect)
    requires
        forall|i: int| 0 <= i < s.len() ==> r.holds((#[trigger] s[i]).x as int, s[i].y as int),
    ensures
        filter_in(s, r) == s,
    decreases s.len(),
{
    if s.len() > 0 {
        lemma_filter_in_all(s.drop_last(), r);
        assert(s.drop_last().push(s.last()) =~= s);
        assert(filter_in(s.drop_last(), r) + seq![s.last()] =~= s.drop_last().push(s.last()));
    } else {
        assert(s =~= Seq::<Point<T>>::empty());
    }
}

/// Keeping the points of `q`, then those of a rectangle within `q`, keeps the points of the latter.
pub proof fn lemma_filter_in_nested<T>(s: Seq<Point<T>>, q: Rect, r: Rect)
    requires
        nested(r, q),
    ensures
        filter_in(filter_in(s, q), r) == filter_in(s, r),
    decreases s.len(),
{
    if s.len() > 0 {
        let p = s.last();
        lemma_filter_in_nested(s.drop_last(), q, r);
        let f = filter_in(s.drop_last(), q);
        if q.holds(p.x as int, p.y as int) {
            assert(filter_in(s, q) == f.push(p)) by {
                assert(f + seq![p] =~= f.push(p));
            }
            lemma_filter_in_push(f, p, r);
        } else {
            assert(filter_in(s, q) =~= f);
            assert(!r.holds(p.x as int, p.y as int));
            assert(filter_in(s, r) =~= filter_in(s.drop_last(), r));
        }
    }
}

/// The points of `s` off column `x` and off row `y`, in order.
pub open spec fn off_lines<T>(s: Seq<Point<T>>, x: int, y: int) -> Seq<Point<T>>
    decreases s.len(),
{
    if s.len() == 0 {
        Seq::empty()
    } else {
        off_lines(s.drop_last(), x, y) + if s.last().x != x && s.last().y != y {
            seq![s.last()]
        } else {
            Seq::empty()
        }
    }
}

/// `inner` lies within `outer`.
pub open spec fn nested(inner: Rect, outer: Rect) -> bool {
    outer.x1 <= inner.x1 && inner.x2 <= outer.x2 && outer.y1 <= inner.y1 && inner.y2 <= outer.y2
}

/// The quadrants of an ordered rectangle lie within it.
pub proof fn lemma_quadrants_nested(r: Rect)
    requires
        r.ordered(),
    ensures
        forall|i: int| 0 <= i < 4 ==> nested(#[trigger] quadrant(r, i), r),
{
}

/// Where a leaf over `r` holding `pts`, of capacity `cap`, ends up once it
/// receives a point at `(x, y)`: the rectangle of the leaf that then holds
/// `(a, c)`. A full leaf splits, and the quadrant that takes `(x, y)` splits
/// again for as long as every point of the leaf falls into it.
pub open spec fn split_leaf<T>(
    r: Rect,
    pts: Seq<Point<T>>,
    cap: nat,
    x: int,
    y: int,
    a: int,
    c: int,
) -> Rect
    decreases r.span(),
{
    if r.holds(x, y) && count_in(pts, r) >= cap && (r.x2 - r.x1 >= 2 || r.y2 - r.y1 >= 2) {
        let q = quadrant(r, quadrant_index(r, a, c));
        proof {
            lemma_quadrants(r, a, c);
            lemma_quadrant_span(r);
        }
        if q.holds(x, y) {
            split_leaf(q, pts, cap, x, y, a, c)
        } else {
            q
        }
    } else {
        r
    }
}

/// Only the counts inside `r` decide how a leaf over `r` splits.
pub proof fn lemma_split_leaf_congruent<T>(
    r: Rect,
    s1: Seq<Point<T>>,
    s2: Seq<Point<T>>,
    cap: nat,
    x: int,
    y: int,
    a: int,
    c: int,
)
    requires
        forall|q: Rect| nested(q, r) ==> #[trigger] count_in(s1, q) == count_in(s2, q),
    ensures
        split_leaf(r, s1, cap, x, y, a, c) == split_leaf(r, s2, cap, x, y, a, c),
    decreases r.span(),
{
    assert(nested(r, r));
    if r.holds(x, y) && (r.x2 - r.x1 >= 2 || r.y2 - r.y1 >= 2) {
        lemma_quadrants(r, a, c);
        lemma_quadrant_span(r);
        lemma_quadrants_nested(r);
        let q = quadrant(r, quadrant_index(r, a, c));
        if q.holds(x, y) {
            assert forall|q2: Rect| nested(q2, q) implies #[trigger] count_in(s1, q2) == count_in(s2, q2) by {
                assert(nested(q2, r));
            }
            lemma_split_leaf_congruent(q, s1, s2, cap, x, y, a, c);
        }
    }
}

/// `b` holds exactly the points of `pre` that lie in `q`, in their order.
pub open spec fn bucket_ok<T>(b: Seq<Point<T>>, q: Rect, pre: Seq<Point<T>>) -> bool {
    &&& forall|j: int| 0 <= j < b.len() ==> q.holds((#[trigger] b[j]).x as int, b[j].y as int)
    &&& forall|a: int, c: int| q.holds(a, c) ==> #[trigger] data_at(b, a, c) == data_at(pre, a, c)
    &&& forall|r: Rect| nested(r, q) ==> #[trigger] count_in(b, r) == count_in(pre, r)
    &&& b == filter_in(pre, q)
}

/// Handing the next point to the one bucket whose rectangle holds it keeps every bucket right.
pub proof fn lemma_bucket_step<T>(
    b: Seq<Point<T>>,
    q: Rect,
    pre: Seq<Point<T>>,
    p: Point<T>,
    receives: bool,
)
    requires
        bucket_ok(b, q, pre),
        receives == q.holds(p.x as int, p.y as int),
    ensures
        bucket_ok(if receives { b.push(p) } else { b }, q, pre.push(p)),
{
    let nb = if receives { b.push(p) } else { b };
    assert forall|a: int, c: int| q.holds(a, c) implies #[trigger] data_at(nb, a, c) == data_at(
        pre.push(p),
        a,
        c,
    ) by {
        lemma_data_at_push(pre, p, a, c);
        lemma_data_at_push(b, p, a, c);
        if !receives {
            assert(!(p.x == a && p.y == c));
            assert(data_at(pre, a, c) + Seq::<T>::empty() =~= data_at(pre, a, c));
        }
    }
    assert forall|j: int| 0 <= j < nb.len() implies q.holds((#[trigger] nb[j]).x as int, nb[j].y as int) by {
        if receives && j == b.len() {
        } else {
            assert(nb[j] == b[j]);
        }
    }
    assert forall|r: Rect| nested(r, q) implies #[trigger] count_in(nb, r) == count_in(pre.push(p), r) by {
        lemma_count_in_push(pre, p, r);
        lemma_count_in_push(b, p, r);
    }
    lemma_filter_in_push(pre, p, q);
    if receives {
        assert(b + seq![p] =~= b.push(p));
    } else {
        assert(b + Seq::<Point<T>>::empty() =~= b);
    }
}

/// The contents of a node: the points of a leaf, or the four quadrants of a split node.
pub enum Node<T> {
    Leaf(Vec<Point<T>>),
    Subtree(Vec<QuadTree<T>>),
}

pub struct QuadTree<T> {
    pub rect: Rect,
    pub capacity: usize,
    pub node: Node<T>,
}

impl<T> QuadTree<T> {
    /// The payloads stored at `(x, y)`, oldest first.
    pub open spec fn at(self, x: int, y: int) -> Seq<T>
        decreases self,
    {
        if !self.rect.holds(x, y) {
            Seq::empty()
        } else {
            match self.node {
                Node::Leaf(points) => data_at(points@, x, y),
                Node::Subtree(quads) => {
                    let k = quadrant_index(self.rect, x, y);
                    if quads.len() == 4 && 0 <= k < 4 {
                        quads@[k].at(x, y)
                    } else {
                        Seq::empty()
                    }
                },
            }
        }
    }

    /// What a lookup at `(x, y)` gives: the oldest payload stored there.
    pub open spec fn lookup(self, x: int, y: int) -> Option<T> {
        if self.at(x, y).len() > 0 {
            Some(self.at(x, y)[0])
        } else {
            None
        }
    }

    /// The rectangle of the leaf that a search for `(x, y)` ends in.
    pub open spec fn leaf_rect(self, x: int, y: int) -> Rect
        decreases self,
    {
        match self.node {
            Node::Leaf(_) => self.rect,
            Node::Subtree(quads) => {
                let k = quadrant_index(self.rect, x, y);
                if quads.len() == 4 && 0 <= k < 4 && self.rect.holds(x, y) {
                    quads@[k].leaf_rect(x, y)
                } else {
                    self.rect
                }
            },
        }
    }

    /// The points a leaf holds; none for a split node.
    pub open spec fn own_points(self) -> Seq<Point<T>> {
        match self.node {
            Node::Leaf(points) => points@,
            Node::Subtree(_) => Seq::empty(),
        }
    }

    /// The points of the leaf that a search for `(x, y)` ends in.
    pub open spec fn leaf_points(self, x: int, y: int) -> Seq<Point<T>>
        decreases self,
    {
        match self.node {
            Node::Leaf(points) => if self.rect.holds(x, y) {
                points@
            } else {
                Seq::empty()
            },
            Node::Subtree(quads) => {
                let k = quadrant_index(self.rect, x, y);
                if quads.len() == 4 && 0 <= k < 4 && self.rect.holds(x, y) {
                    quads@[k].leaf_points(x, y)
                } else {
                    Seq::empty()
                }
            },
        }
    }

    /// A child of a split node: quadrant `i` of its parent, with the parent's capacity.
    pub open spec fn child_ok(self, quads: Seq<QuadTree<T>>, i: int) -> bool {
        &&& quads[i].rect == quadrant(self.rect, i)
        &&& quads[i].capacity == self.capacity
    }

    /// The tree's invariant: leaves hold at most `capacity` points, all inside
    /// their rectangle; a split node is a rectangle of more than one cell with
    /// exactly its four quadrants as children.
    pub open spec fn wf(self) -> bool
        decreases self,
    {
        match self.node {
            Node::Leaf(points) => {
                &&& points.len() <= self.capacity
                &&& forall|i: int|
                    0 <= i < points.len() ==> self.rect.holds(
                        (#[trigger] points@[i]).x as int,
                        points@[i].y as int,
                    )
            },
            Node::Subtree(quads) => {
                &&& quads.len() == 4
                &&& self.rect.x1 < self.rect.x2
                &&& self.rect.y1 < self.rect.y2
                &&& (self.rect.x2 - self.rect.x1 >= 2 || self.rect.y2 - self.rect.y1 >= 2)
                &&& self.child_ok(quads@, 0)
                &&& self.child_ok(quads@, 1)
                &&& self.child_ok(quads@, 2)
                &&& self.child_ok(quads@, 3)
                &&& quads@[0].wf()
                &&& quads@[1].wf()
                &&& quads@[2].wf()
                &&& quads@[3].wf()
            },
        }
    }
}


/// `midpoint(a, b)`, computed without overflow.
pub(crate) fn midpoint_of(a: usize, b: usize) -> (m: usize)
    ensures
        m == midpoint(a, b),
{
    if a <= b {
        a + (b - a) / 2
    } else {
        b + (a - b) / 2
    }
}

/// The quadrant of `rect` that holds `(x, y)`.
pub(crate) fn quadrant_of(rect: &Rect, x: usize, y: usize) -> (k: usize)
    ensures
        k == quadrant_index(*rect, x as int, y as int),
{
    let mx = midpoint_of(rect.x1, rect.x2);
    let my = midpoint_of(rect.y1, rect.y2);
    if x < mx {
        if y < my { 0 } else { 2 }
    } else {
        if y < my { 1 } else { 3 }
    }
}

impl<T> QuadTree<T> {
    /// `after` is `before` with `d` stored at `(x, y)` behind what was there.
    pub open spec fn stored_after_insert(before: Self, after: Self, x: int, y: int, d: T) -> bool {
        forall|a: int, c: int|
            #[trigger] after.at(a, c) == if a == x && c == y {
                before.at(a, c).push(d)
            } else {
                before.at(a, c)
            }
    }
}

impl<T> QuadTree<T> {
    /// The leaves of `after` are those of `before`, but for the leaf that held
    /// `(x, y)`: it has split as `split_leaf` describes, and each leaf it became
    /// holds, in order, the points of the old leaf and the new one that lie in it.
    pub open spec fn reshaped_after_insert(before: Self, after: Self, x: int, y: int, d: T) -> bool {
        &&& forall|a: int, c: int|
            #[trigger] after.leaf_rect(a, c) == if before.leaf_rect(x, y).holds(a, c) {
                split_leaf(
                    before.leaf_rect(x, y),
                    before.leaf_points(x, y),
                    before.capacity as nat,
                    x,
                    y,
                    a,
                    c,
                )
            } else {
                before.leaf_rect(a, c)
            }
        &&& forall|a: int, c: int|
            #[trigger] after.leaf_points(a, c) == if before.leaf_rect(x, y).holds(a, c) {
                filter_in(
                    before.leaf_points(x, y).push(Point { x: x as usize, y: y as usize, data: d }),
                    after.leaf_rect(a, c),
                )
            } else {
                before.leaf_points(a, c)
            }
    }

    /// The leaf a search for a point of the rectangle ends in lies within the rectangle.
    pub proof fn lemma_leaf_rect_nested(self, a: int, c: int)
        requires
            self.wf(),
            self.rect.holds(a, c),
        ensures
            nested(self.leaf_rect(a, c), self.rect),
        decreases self,
    {
        if let Node::Subtree(quads) = self.node {
            let k = quadrant_index(self.rect, a, c);
            lemma_quadrants(self.rect, a, c);
            lemma_quadrants_nested(self.rect);
            assert(self.child_ok(quads@, k));
            quads@[k].lemma_leaf_rect_nested(a, c);
        }
    }

    /// `after` is `before` with every payload cleared that sits, inside the
    /// leaf that a search for `(x, y)` ends in, on column `x` or on row `y`.
    pub open spec fn cleared_after_remove(before: Self, after: Self, x: int, y: int) -> bool {
        forall|a: int, c: int|
            #[trigger] after.at(a, c) == if before.leaf_rect(x, y).holds(a, c) && (a == x || c == y) {
                Seq::<T>::empty()
            } else {
                before.at(a, c)
            }
    }

    /// The leaf a search ends in lies inside the tree's rectangle.
    pub proof fn lemma_leaf_rect_within(self, x: int, y: int, a: int, c: int)
        requires
            self.wf(),
            self.leaf_rect(x, y).holds(a, c),
        ensures
            self.rect.holds(a, c),
        decreases self,
    {
        if let Node::Subtree(quads) = self.node {
            let k = quadrant_index(self.rect, x, y);
            lemma_quadrants(self.rect, x, y);
            if self.rect.holds(x, y) {
                assert(self.child_ok(quads@, k));
                quads@[k].lemma_leaf_rect_within(x, y, a, c);
                lemma_quadrants(self.rect, a, c);
            }
        }
    }

    /// A point of the tree's rectangle lies in the leaf its own search ends in.
    pub proof fn lemma_leaf_rect_holds(self, x: int, y: int)
        requires
            self.wf(),
            self.rect.holds(x, y),
        ensures
            self.leaf_rect(x, y).holds(x, y),
        decreases self,
    {
        if let Node::Subtree(quads) = self.node {
            let k = quadrant_index(self.rect, x, y);
            lemma_quadrants(self.rect, x, y);
            assert(self.child_ok(quads@, k));
            quads@[k].lemma_leaf_rect_holds(x, y);
        }
    }
}

impl<T: Copy> QuadTree<T> {
    /// An empty tree over the rectangle from `(x1, y1)` up to, not including, `(x2, y2)`.
    pub fn new(x1: usize, y1: usize, x2: usize, y2: usize, capacity: usize) -> (tree: QuadTree<T>)
        ensures
            tree.wf(),
            tree.rect == (Rect { x1, y1, x2, y2 }),
            tree.capacity == capacity,
            tree.node is Leaf,
            tree.own_points().len() == 0,
            forall|x: int, y: int| #[trigger] tree.at(x, y) == Seq::<T>::empty(),
    {
        let rect = Rect { x1, y1, x2, y2 };
        let tree = QuadTree { rect, capacity, node: Node::Leaf(Vec::new()) };
        assert forall|x: int, y: int| #[trigger] tree.at(x, y) == Seq::<T>::empty() by {
            if let Node::Leaf(points) = tree.node {
                lemma_data_at_none_here(points@, x, y);
            }
        }
        tree
    }

    /// The oldest payload stored at `(x, y)`, if any.
    pub fn get(&self, x: usize, y: usize) -> (r: Option<T>)
        requires
            self.wf(),
        ensures
            r == self.lookup(x as int, y as int),
        decreases self.rect.span(),
    {
        if !self.rect.contains(x, y) {
            return None;
        }
        match &self.node {
            Node::Subtree(quads) => {
                proof {
                    lemma_quadrants(self.rect, x as int, y as int);
                    lemma_quadrant_span(self.rect);
                }
                let ghost k = quadrant_index(self.rect, x as int, y as int);
                let mut i: usize = 0;
                while i < quads.len()
                    invariant
                        self.wf(),
                        self.node == Node::Subtree(*quads),
                        self.rect.holds(x as int, y as int),
                        0 <= k < 4,
                        self.at(x as int, y as int) == quads@[k].at(x as int, y as int),
                        forall|j: int| 0 <= j < 4 ==> 0 <= (#[trigger] quadrant(self.rect, j)).span() < self.rect.span(),
                        forall|j: int|
                            0 <= j < 4 ==> ((#[trigger] quadrant(self.rect, j)).holds(x as int, y as int) <==> j == k),
                        0 <= i <= quads.len(),
                        forall|j: int| 0 <= j < i ==> (#[trigger] quads@[j].at(x as int, y as int)).len() == 0,
                    decreases quads.len() - i,
                {
                    assert(self.child_ok(quads@, i as int));
                    if let Some(v) = quads[i].get(x, y) {
                        assert(quads@[i as int].at(x as int, y as int).len() > 0);
                        assert(quads@[i as int].rect.holds(x as int, y as int));
                        assert(i == k);
                        return Some(v);
                    }
                    i = i + 1;
                }
                assert(quads@[k].at(x as int, y as int).len() == 0);
            },
            Node::Leaf(points) => {
                let mut i: usize = 0;
                while i < points.len()
                    invariant
                        self.node == Node::Leaf(*points),
                        self.rect.holds(x as int, y as int),
                        0 <= i <= points.len(),
                        data_at(points@.take(i as int), x as int, y as int) == Seq::<T>::empty(),
                    decreases points.len() - i,
                {
                    let p = &points[i];
                    proof {
                        assert(points@.take(i as int + 1) =~= points@.take(i as int).push(*p));
                        lemma_data_at_push(points@.take(i as int), *p, x as int, y as int);
                    }
                    if p.x == x && p.y == y {
                        proof {
                            assert(points@ =~= points@.take(i as int + 1) + points@.skip(i as int + 1));
                            lemma_data_at_concat(points@.take(i as int + 1), points@.skip(i as int + 1), x as int, y as int);
                        }
                        return Some(p.data);
                    }
                    i = i + 1;
                }
                assert(points@.take(i as int) =~= points@);
            },
        }
        None
    }

    /// Splits a leaf into its four quadrants and hands its points down to them.
    ///
    /// Any leaf can be split, a single cell or an empty rectangle too; the
    /// result keeps the tree's invariant when the rectangle is not empty and
    /// more than one cell wide or tall.
    fn subdivide(&mut self)
        requires
            old(self).wf(),
            old(self).node is Leaf,
        ensures
            (old(self).rect.x1 < old(self).rect.x2 && old(self).rect.y1 < old(self).rect.y2 && (
            old(self).rect.x2 - old(self).rect.x1 >= 2 || old(self).rect.y2 - old(self).rect.y1
                >= 2)) ==> final(self).wf(),
            final(self).node is Subtree,
            final(self).rect == old(self).rect,
            final(self).capacity == old(self).capacity,
            forall|a: int, c: int| #[trigger] final(self).at(a, c) == old(self).at(a, c),
            match final(self).node {
                Node::Subtree(quads) => quads.len() == 4 && forall|i: int|
                    0 <= i < 4 ==> (#[trigger] quads@[i]).node is Leaf && quads@[i].wf()
                        && quads@[i].rect == quadrant(old(self).rect, i)
                        && quads@[i].capacity == old(self).capacity
                        && quads@[i].own_points()
                        == filter_in(old(self).own_points(), quadrant(old(self).rect, i))
                        && forall|r: Rect|
                        nested(r, quadrant(old(self).rect, i)) ==> #[trigger] count_in(
                            quads@[i].own_points(),
                            r,
                        ) == count_in(old(self).own_points(), r),
                Node::Leaf(_) => false,
            },
    {
        let x1 = self.rect.x1;
        let y1 = self.rect.y1;
        let x2 = self.rect.x2;
        let y2 = self.rect.y2;
        let capacity = self.capacity;
        let mx = midpoint_of(x1, x2);
        let my = midpoint_of(y1, y2);
        let ghost r = self.rect;
        let ghost old_tree = *self;
        let ghost old_points: Seq<Point<T>> = match old_tree.node {
            Node::Leaf(points) => points@,
            Node::Subtree(_) => Seq::empty(),
        };
        let mut b0: Vec<Point<T>> = Vec::new();
        let mut b1: Vec<Point<T>> = Vec::new();
        let mut b2: Vec<Point<T>> = Vec::new();
        let mut b3: Vec<Point<T>> = Vec::new();
        if let Node::Leaf(points) = &self.node {
            proof {
                assert(points@.take(0) =~= Seq::<Point<T>>::empty());
            }
            let mut i: usize = 0;
            while i < points.len()
                invariant
                    self.wf(),
                    self.rect == r,
                    r.x1 == x1 && r.y1 == y1 && r.x2 == x2 && r.y2 == y2,
                    self.node == Node::Leaf(*points),
                    points@ == old_points,
                    self.capacity == capacity,
                    0 <= i <= points.len(),
                    b0.len() + b1.len() + b2.len() + b3.len() == i,
                    bucket_ok(b0@, quadrant(r, 0), points@.take(i as int)),
                    bucket_ok(b1@, quadrant(r, 1), points@.take(i as int)),
                    bucket_ok(b2@, quadrant(r, 2), points@.take(i as int)),
                    bucket_ok(b3@, quadrant(r, 3), points@.take(i as int)),
                decreases points.len() - i,
            {
                let p = &points[i];
                let q = Point { x: p.x, y: p.y, data: p.data };
                let k = quadrant_of(&self.rect, p.x, p.y);
                proof {
                    assert(r.holds(p.x as int, p.y as int));
                    lemma_quadrants(r, p.x as int, p.y as int);
                    assert(points@.take(i as int + 1) =~= points@.take(i as int).push(q));
                    lemma_bucket_step(b0@, quadrant(r, 0), points@.take(i as int), q, k == 0);
                    lemma_bucket_step(b1@, quadrant(r, 1), points@.take(i as int), q, k == 1);
                    lemma_bucket_step(b2@, quadrant(r, 2), points@.take(i as int), q, k == 2);
                    lemma_bucket_step(b3@, quadrant(r, 3), points@.take(i as int), q, k == 3);
                }
                if k == 0 {
                    b0.push(q);
                } else if k == 1 {
                    b1.push(q);
                } else if k == 2 {
                    b2.push(q);
                } else {
                    b3.push(q);
                }
                i = i + 1;
            }
            assert(points@.take(i as int) =~= points@);
        }
        assert(b0.len() <= capacity && b1.len() <= capacity && b2.len() <= capacity && b3.len() <= capacity);
        assert(bucket_ok(b0@, quadrant(r, 0), old_points));
        assert(bucket_ok(b1@, quadrant(r, 1), old_points));
        assert(bucket_ok(b2@, quadrant(r, 2), old_points));
        assert(bucket_ok(b3@, quadrant(r, 3), old_points));
        let nw = QuadTree { rect: Rect { x1, y1, x2: mx, y2: my }, capacity, node: Node::Leaf(b0) };
        let ne = QuadTree { rect: Rect { x1: mx, y1, x2, y2: my }, capacity, node: Node::Leaf(b1) };
        let sw = QuadTree { rect: Rect { x1, y1: my, x2: mx, y2 }, capacity, node: Node::Leaf(b2) };
        let se = QuadTree { rect: Rect { x1: mx, y1: my, x2, y2 }, capacity, node: Node::Leaf(b3) };
        let mut children: Vec<QuadTree<T>> = Vec::new();
        children.push(nw);
        children.push(ne);
        children.push(sw);
        children.push(se);
        self.node = Node::Subtree(children);
        proof {
            assert(children@[0] == nw);
            assert(children@[1] == ne);
            assert(children@[2] == sw);
            assert(children@[3] == se);
            assert(nw.wf());
            assert(ne.wf());
            assert(sw.wf());
            assert(se.wf());
            assert forall|a: int, c: int| #[trigger] self.at(a, c) == old_tree.at(a, c) by {
                if r.holds(a, c) {
                    lemma_quadrants(r, a, c);
                    let k = quadrant_index(r, a, c);
                    assert(quadrant(r, k).holds(a, c));
                    if k == 0 {
                        assert(nw.at(a, c) == data_at(b0@, a, c));
                        assert(data_at(b0@, a, c) == data_at(old_points, a, c));
                    } else if k == 1 {
                        assert(ne.at(a, c) == data_at(b1@, a, c));
                        assert(data_at(b1@, a, c) == data_at(old_points, a, c));
                    } else if k == 2 {
                        assert(sw.at(a, c) == data_at(b2@, a, c));
                        assert(data_at(b2@, a, c) == data_at(old_points, a, c));
                    } else {
                        assert(se.at(a, c) == data_at(b3@, a, c));
                        assert(data_at(b3@, a, c) == data_at(old_points, a, c));
                    }
                }
            }
        }
    }

    /// Stores `data` at `(x, y)`; fails when the point lies outside the tree's rectangle.
    ///
    /// A full leaf is split first. The tree does not return from a split of a
    /// single-cell leaf, so the point's location must hold fewer than
    /// `capacity` payloads already.
    pub fn insert(&mut self, x: usize, y: usize, data: T) -> (r: Result<(), ()>)
        requires
            old(self).wf(),
            old(self).rect.holds(x as int, y as int) ==> old(self).at(x as int, y as int).len()
                < old(self).capacity,
        ensures
            final(self).wf(),
            final(self).rect == old(self).rect,
            final(self).capacity == old(self).capacity,
            r is Ok <==> old(self).rect.holds(x as int, y as int),
            r is Ok ==> Self::stored_after_insert(*old(self), *final(self), x as int, y as int, data),
            r is Ok ==> Self::reshaped_after_insert(*old(self), *final(self), x as int, y as int, data),
            r is Err ==> *final(self) == *old(self),
        decreases old(self).rect.span(),
    {
        if !self.rect.contains(x, y) {
            return Err(());
        }
        let ghost splittable = self.rect.x2 - self.rect.x1 >= 2 || self.rect.y2 - self.rect.y1 >= 2;
        let full = match &self.node {
            Node::Leaf(points) => points.len() >= self.capacity,
            Node::Subtree(_) => false,
        };
        if full {
            proof {
                let ghost s = *self;
                if let Node::Leaf(points) = s.node {
                    if self.rect.x2 - self.rect.x1 < 2 && self.rect.y2 - self.rect.y1 < 2 {
                        assert forall|i: int| 0 <= i < points@.len() implies (#[trigger] points@[i]).x == x
                            && points@[i].y == y by {
                            assert(self.rect.holds(points@[i].x as int, points@[i].y as int));
                        }
                        lemma_data_at_all_here(points@, x as int, y as int);
                        assert(false);
                    }
                }
            }
            self.subdivide();
        }
        let ghost mid = *self;
        let ghost pt = Point { x, y, data };
        let mut node = Node::Leaf(Vec::new());
        std::mem::swap(&mut node, &mut self.node);
        match node {
            Node::Leaf(mut points) => {
                proof {
                    assert forall|a: int, c: int| #[trigger] data_at(points@.push(pt), a, c) == if a == x && c == y {
                        data_at(points@, a, c).push(data)
                    } else {
                        data_at(points@, a, c)
                    } by {
                        lemma_data_at_push(points@, pt, a, c);
                        assert(data_at(points@, a, c) + Seq::<T>::empty() =~= data_at(points@, a, c));
                    }
                }
                points.push(Point { x, y, data });
                self.node = Node::Leaf(points);
                proof {
                    lemma_count_in_all(old(self).own_points(), old(self).rect);
                    lemma_filter_in_all(points@, self.rect);
                    assert(points@.last() == pt);
                    assert forall|a: int, c: int| #[trigger] self.at(a, c) == if a == x && c == y {
                        old(self).at(a, c).push(data)
                    } else {
                        old(self).at(a, c)
                    } by {
                        assert(data_at(points@, a, c) == data_at(points@.drop_last().push(pt), a, c)) by {
                            assert(points@ =~= points@.drop_last().push(pt));
                        }
                    }
                }
                Ok(())
            },
            Node::Subtree(mut quads) => {
                let k = quadrant_of(&self.rect, x, y);
                let ghost before = quads@;
                proof {
                    lemma_quadrants(mid.rect, x as int, y as int);
                    lemma_quadrant_span(mid.rect);
                    assert(mid.child_ok(quads@, k as int));
                    assert(mid.at(x as int, y as int) == quads@[k as int].at(x as int, y as int));
                }
                let r = quads[k].insert(x, y, data);
                self.node = Node::Subtree(quads);
                proof {
                    assert(quads@ == before.update(k as int, quads@[k as int]));
                    assert(self.child_ok(quads@, 0));
                    assert(self.child_ok(quads@, 1));
                    assert(self.child_ok(quads@, 2));
                    assert(self.child_ok(quads@, 3));
                    assert forall|a: int, c: int| #[trigger] self.at(a, c) == if a == x && c == y {
                        old(self).at(a, c).push(data)
                    } else {
                        old(self).at(a, c)
                    } by {
                        lemma_quadrants(mid.rect, a, c);
                        if mid.rect.holds(a, c) {
                            let j = quadrant_index(mid.rect, a, c);
                            assert(quadrant(mid.rect, j).holds(a, c));
                            assert(self.at(a, c) == quads@[j].at(a, c));
                            assert(mid.at(a, c) == before[j].at(a, c));
                            assert(mid.at(a, c) == old(self).at(a, c));
                            if j == k {
                                assert(quads@[j].at(a, c) == before[j].at(a, c) || a == x && c == y);
                            } else {
                                assert(quads@[j] == before[j]);
                            }
                        }
                    }
                    let ghost lx = old(self).leaf_rect(x as int, y as int);
                    let ghost lp = old(self).leaf_points(x as int, y as int);
                    let ghost cap = old(self).capacity as nat;
                    assert forall|a: int, c: int| #[trigger] self.leaf_rect(a, c) == if lx.holds(a, c) {
                        split_leaf(lx, lp, cap, x as int, y as int, a, c)
                    } else {
                        old(self).leaf_rect(a, c)
                    } by {
                        lemma_quadrants(mid.rect, a, c);
                        lemma_quadrants_nested(mid.rect);
                        let j = quadrant_index(mid.rect, a, c);
                        if full {
                            lemma_count_in_all(old(self).own_points(), old(self).rect);
                            assert(lx == old(self).rect);
                            assert(lp == old(self).own_points());
                            if mid.rect.holds(a, c) {
                                assert(quadrant(mid.rect, j).holds(a, c));
                                assert(self.leaf_rect(a, c) == quads@[j].leaf_rect(a, c));
                                assert(split_leaf(lx, lp, cap, x as int, y as int, a, c) == if quadrant(
                                    mid.rect,
                                    j,
                                ).holds(x as int, y as int) {
                                    split_leaf(quadrant(mid.rect, j), lp, cap, x as int, y as int, a, c)
                                } else {
                                    quadrant(mid.rect, j)
                                });
                                if j == k {
                                    assert(before[j].leaf_rect(x as int, y as int) == quadrant(mid.rect, j));
                                    assert(before[j].leaf_points(x as int, y as int) == before[j].own_points());
                                    lemma_split_leaf_congruent(
                                        quadrant(mid.rect, j),
                                        before[j].own_points(),
                                        lp,
                                        cap,
                                        x as int,
                                        y as int,
                                        a,
                                        c,
                                    );
                                } else {
                                    assert(quads@[j] == before[j]);
                                }
                            }
                        } else {
                            assert(mid == *old(self));
                            if lx.holds(a, c) {
                                mid.lemma_leaf_rect_within(x as int, y as int, a, c);
                            }
                            if mid.rect.holds(a, c) {
                                assert(quadrant(mid.rect, j).holds(a, c));
                                assert(self.leaf_rect(a, c) == quads@[j].leaf_rect(a, c));
                                assert(mid.leaf_rect(a, c) == before[j].leaf_rect(a, c));
                                assert(lx == before[k as int].leaf_rect(x as int, y as int));
                                assert(lp == before[k as int].leaf_points(x as int, y as int));
                                if j != k {
                                    assert(quads@[j] == before[j]);
                                    if lx.holds(a, c) {
                                        before[k as int].lemma_leaf_rect_within(x as int, y as int, a, c);
                                    }
                                }
                            }
                        }
                    }
                    assert forall|a: int, c: int| #[trigger] self.leaf_points(a, c) == if lx.holds(a, c) {
                        filter_in(lp.push(pt), self.leaf_rect(a, c))
                    } else {
                        old(self).leaf_points(a, c)
                    } by {
                        lemma_quadrants(mid.rect, a, c);
                        lemma_quadrants_nested(mid.rect);
                        let j = quadrant_index(mid.rect, a, c);
                        if full {
                            assert(lx == old(self).rect);
                            assert(lp == old(self).own_points());
                            if mid.rect.holds(a, c) {
                                assert(quadrant(mid.rect, j).holds(a, c));
                                assert(self.leaf_points(a, c) == quads@[j].leaf_points(a, c));
                                assert(self.leaf_rect(a, c) == quads@[j].leaf_rect(a, c));
                                lemma_filter_in_push(lp, pt, self.leaf_rect(a, c));
                                if j == k {
                                    assert(before[j].leaf_points(x as int, y as int) == before[j].own_points());
                                    assert(before[j].own_points() == filter_in(lp, quadrant(mid.rect, j)));
                                    quads@[j].lemma_leaf_rect_nested(a, c);
                                    lemma_filter_in_push(before[j].own_points(), pt, self.leaf_rect(a, c));
                                    lemma_filter_in_nested(lp, quadrant(mid.rect, j), self.leaf_rect(a, c));
                                } else {
                                    assert(quads@[j] == before[j]);
                                    assert(self.leaf_rect(a, c) == quadrant(mid.rect, j));
                                    assert(filter_in(lp, quadrant(mid.rect, j)) + Seq::<Point<T>>::empty()
                                        =~= filter_in(lp, quadrant(mid.rect, j)));
                                }
                            }
                        } else {
                            assert(mid == *old(self));
                            if lx.holds(a, c) {
                                mid.lemma_leaf_rect_within(x as int, y as int, a, c);
                            }
                            if mid.rect.holds(a, c) {
                                assert(quadrant(mid.rect, j).holds(a, c));
                                assert(self.leaf_points(a, c) == quads@[j].leaf_points(a, c));
                                assert(self.leaf_rect(a, c) == quads@[j].leaf_rect(a, c));
                                assert(mid.leaf_points(a, c) == before[j].leaf_points(a, c));
                                assert(lx == before[k as int].leaf_rect(x as int, y as int));
                                assert(lp == before[k as int].leaf_points(x as int, y as int));
                                if j != k {
                                    assert(quads@[j] == before[j]);
                                    if lx.holds(a, c) {
                                        before[k as int].lemma_leaf_rect_within(x as int, y as int, a, c);
                                    }
                                }
                            }
                        }
                    }
                }
                r
            },
        }
    }

    /// Clears, in the leaf that holds `(x, y)`, every point on column `x` or on
    /// row `y`; fails when the point lies outside the tree's rectangle.
    pub fn remove(&mut self, x: usize, y: usize) -> (r: Result<(), ()>)
        requires
            old(self).wf(),
        ensures
            final(self).wf(),
            final(self).rect == old(self).rect,
            final(self).capacity == old(self).capacity,
            forall|a: int, c: int| #[trigger] final(self).leaf_rect(a, c) == old(self).leaf_rect(a, c),
            r is Ok <==> old(self).rect.holds(x as int, y as int),
            r is Ok ==> old(self).leaf_rect(x as int, y as int).holds(x as int, y as int),
            r is Ok ==> Self::cleared_after_remove(*old(self), *final(self), x as int, y as int),
            r is Ok ==> forall|a: int, c: int| #[trigger] final(self).leaf_points(a, c) == if old(
                self,
            ).leaf_rect(x as int, y as int).holds(a, c) {
                off_lines(old(self).leaf_points(x as int, y as int), x as int, y as int)
            } else {
                old(self).leaf_points(a, c)
            },
            r is Err ==> *final(self) == *old(self),
        decreases old(self).rect.span(),
    {
        if !self.rect.contains(x, y) {
            return Err(());
        }
        let ghost start = *self;
        proof {
            start.lemma_leaf_rect_holds(x as int, y as int);
        }
        let mut node = Node::Leaf(Vec::new());
        std::mem::swap(&mut node, &mut self.node);
        match node {
            Node::Subtree(mut quads) => {
                let k = quadrant_of(&self.rect, x, y);
                let ghost before = quads@;
                proof {
                    lemma_quadrants(start.rect, x as int, y as int);
                    lemma_quadrant_span(start.rect);
                    assert(start.child_ok(quads@, k as int));
                }
                let r = quads[k].remove(x, y);
                self.node = Node::Subtree(quads);
                proof {
                    assert(quads@ == before.update(k as int, quads@[k as int]));
                    assert(self.child_ok(quads@, 0));
                    assert(self.child_ok(quads@, 1));
                    assert(self.child_ok(quads@, 2));
                    assert(self.child_ok(quads@, 3));
                    assert(start.leaf_rect(x as int, y as int) == before[k as int].leaf_rect(x as int, y as int));
                    assert forall|a: int, c: int| #[trigger] self.leaf_rect(a, c) == start.leaf_rect(a, c) by {
                        lemma_quadrants(start.rect, a, c);
                        if start.rect.holds(a, c) {
                            let j = quadrant_index(start.rect, a, c);
                            assert(self.leaf_rect(a, c) == quads@[j].leaf_rect(a, c));
                            assert(start.leaf_rect(a, c) == before[j].leaf_rect(a, c));
                        }
                    }
                    assert forall|a: int, c: int| #[trigger] self.at(a, c) == if start.leaf_rect(x as int, y as int).holds(a, c) && (a == x || c == y) {
                        Seq::<T>::empty()
                    } else {
                        start.at(a, c)
                    } by {
                        lemma_quadrants(start.rect, a, c);
                        if start.leaf_rect(x as int, y as int).holds(a, c) {
                            before[k as int].lemma_leaf_rect_within(x as int, y as int, a, c);
                        }
                        if start.rect.holds(a, c) {
                            let j = quadrant_index(start.rect, a, c);
                            assert(quadrant(start.rect, j).holds(a, c));
                            assert(self.at(a, c) == quads@[j].at(a, c));
                            assert(start.at(a, c) == before[j].at(a, c));
                        }
                    }
                    assert forall|a: int, c: int| #[trigger] self.leaf_points(a, c) == if start.leaf_rect(
                        x as int,
                        y as int,
                    ).holds(a, c) {
                        off_lines(start.leaf_points(x as int, y as int), x as int, y as int)
                    } else {
                        start.leaf_points(a, c)
                    } by {
                        lemma_quadrants(start.rect, a, c);
                        if start.leaf_rect(x as int, y as int).holds(a, c) {
                            before[k as int].lemma_leaf_rect_within(x as int, y as int, a, c);
                        }
                        if start.rect.holds(a, c) {
                            let j = quadrant_index(start.rect, a, c);
                            assert(quadrant(start.rect, j).holds(a, c));
                            assert(self.leaf_points(a, c) == quads@[j].leaf_points(a, c));
                            assert(start.leaf_points(a, c) == before[j].leaf_points(a, c));
                            assert(start.leaf_points(x as int, y as int) == before[k as int].leaf_points(x as int, y as int));
                        }
                    }
                }
                r
            },
            Node::Leaf(points) => {
                let mut kept: Vec<Point<T>> = Vec::new();
                let mut i: usize = 0;
                proof {
                    assert forall|a: int, c: int| #[trigger] data_at(kept@, a, c) == if a == x || c == y {
                        Seq::<T>::empty()
                    } else {
                        data_at(points@.take(0), a, c)
                    } by {
                        lemma_data_at_none_here(kept@, a, c);
                        lemma_data_at_none_here(points@.take(0), a, c);
                    }
                    assert(points@.take(0) =~= Seq::<Point<T>>::empty());
                    assert(kept@ =~= Seq::<Point<T>>::empty());
                }
                while i < points.len()
                    invariant
                        start.node == Node::Leaf(points),
                        start.wf(),
                        0 <= i <= points.len(),
                        kept.len() <= i,
                        forall|j: int| 0 <= j < kept.len() ==> start.rect.holds((#[trigger] kept@[j]).x as int, kept@[j].y as int),
                        kept@ == off_lines(points@.take(i as int), x as int, y as int),
                        forall|a: int, c: int| #[trigger] data_at(kept@, a, c) == if a == x || c == y {
                            Seq::<T>::empty()
                        } else {
                            data_at(points@.take(i as int), a, c)
                        },
                    decreases points.len() - i,
                {
                    let p = &points[i];
                    let q = Point { x: p.x, y: p.y, data: p.data };
                    let ghost old_kept = kept@;
                    proof {
                        assert(points@.take(i as int + 1) =~= points@.take(i as int).push(q));
                        assert(start.rect.holds(q.x as int, q.y as int));
                    }
                    let keep = p.x != x && p.y != y;
                    if keep {
                        kept.push(q);
                    }
                    proof {
                        assert forall|a: int, c: int| #[trigger] data_at(kept@, a, c) == if a == x || c == y {
                            Seq::<T>::empty()
                        } else {
                            data_at(points@.take(i as int + 1), a, c)
                        } by {
                            lemma_data_at_push(points@.take(i as int), q, a, c);
                            lemma_data_at_push(old_kept, q, a, c);
                            assert(data_at(old_kept, a, c) + Seq::<T>::empty() =~= data_at(old_kept, a, c));
                            assert(data_at(points@.take(i as int), a, c) + Seq::<T>::empty() =~= data_at(points@.take(i as int), a, c));
                        }
                        assert forall|j: int| 0 <= j < kept.len() implies start.rect.holds((#[trigger] kept@[j]).x as int, kept@[j].y as int) by {
                            if j < old_kept.len() {
                                assert(kept@[j] == old_kept[j]);
                            }
                        }
                        assert(points@.take(i as int + 1).drop_last() =~= points@.take(i as int));
                        if keep {
                            assert(old_kept + seq![q] =~= old_kept.push(q));
                        } else {
                            assert(old_kept + Seq::<Point<T>>::empty() =~= old_kept);
                        }
                    }
                    i = i + 1;
                }
                proof {
                    assert(points@.take(i as int) =~= points@);
                }
                self.node = Node::Leaf(kept);
                proof {
                    assert(start.leaf_rect(x as int, y as int) == start.rect);
                    assert(start.leaf_points(x as int, y as int) == points@);
                }
                Ok(())
            },
        }
    }
}


/// A payload stored at a location that held nothing is what a lookup there
/// gives back; at a location already in use the lookup still gives the oldest
/// payload; lookups elsewhere do not change.
pub proof fn law_lookup_after_insert<T>(
    before: QuadTree<T>,
    after: QuadTree<T>,
    x: int,
    y: int,
    d: T,
)
    requires
        QuadTree::stored_after_insert(before, after, x, y, d),
    ensures
        after.lookup(x, y) == if before.at(x, y).len() == 0 {
            Some(d)
        } else {
            before.lookup(x, y)
        },
        forall|a: int, c: int| !(a == x && c == y) ==> #[trigger] after.lookup(a, c) == before.lookup(a, c),
{
    assert(after.at(x, y) == before.at(x, y).push(d));
    assert forall|a: int, c: int| !(a == x && c == y) implies #[trigger] after.lookup(a, c) == before.lookup(a, c) by {
        assert(after.at(a, c) == before.at(a, c));
    }
}

/// Payloads at one location come back in the order they were stored: of two
/// stored at an empty location, a lookup gives the first.
pub proof fn law_first_in_first_out<T>(
    t0: QuadTree<T>,
    t1: QuadTree<T>,
    t2: QuadTree<T>,
    x: int,
    y: int,
    d1: T,
    d2: T,
)
    requires
        t0.at(x, y).len() == 0,
        QuadTree::stored_after_insert(t0, t1, x, y, d1),
        QuadTree::stored_after_insert(t1, t2, x, y, d2),
    ensures
        t2.at(x, y) == seq![d1, d2],
        t2.lookup(x, y) == Some(d1),
{
    assert(t1.at(x, y) == t0.at(x, y).push(d1));
    assert(t2.at(x, y) == t1.at(x, y).push(d2));
    assert(t2.at(x, y) =~= seq![d1, d2]);
}

/// After a removal at a point of the tree's rectangle, nothing is found at that point.
pub proof fn law_lookup_after_remove<T>(before: QuadTree<T>, after: QuadTree<T>, x: int, y: int)
    requires
        before.wf(),
        before.rect.holds(x, y),
        QuadTree::cleared_after_remove(before, after, x, y),
    ensures
        after.lookup(x, y) == None::<T>,
{
    before.lemma_leaf_rect_holds(x, y);
    assert(after.at(x, y) == Seq::<T>::empty());
}

/// Nothing is ever stored outside the tree's rectangle.
pub proof fn law_nothing_outside<T>(t: QuadTree<T>, x: int, y: int)
    requires
        !t.rect.holds(x, y),
    ensures
        t.at(x, y) == Seq::<T>::empty(),
        t.lookup(x, y) == None::<T>,
{
}

/// A removal at `(x, y)` touches only column `x` and row `y`: every location
/// on neither keeps exactly what it held, and within the leaf of `(x, y)`
/// every location on either holds nothing afterwards.
pub proof fn law_remove_spares_other_lines<T>(
    before: QuadTree<T>,
    after: QuadTree<T>,
    x: int,
    y: int,
)
    requires
        QuadTree::cleared_after_remove(before, after, x, y),
    ensures
        forall|a: int, c: int| a != x && c != y ==> #[trigger] after.at(a, c) == before.at(a, c),
        forall|a: int, c: int|
            before.leaf_rect(x, y).holds(a, c) && (a == x || c == y) ==> #[trigger] after.at(a, c).len()
                == 0,
{
    assert forall|a: int, c: int| a != x && c != y implies #[trigger] after.at(a, c) == before.at(a, c) by {
        assert(!(a == x || c == y));
    }
    assert forall|a: int, c: int|
        before.leaf_rect(x, y).holds(a, c) && (a == x || c == y) implies #[trigger] after.at(a, c).len()
            == 0 by {
        assert(after.at(a, c) == Seq::<T>::empty());
    }
}

/// The points a removal keeps in its leaf are exactly those off column `x`
/// and off row `y`, in their order.
pub proof fn law_off_lines_keeps_the_rest<T>(s: Seq<Point<T>>, x: int, y: int)
    ensures
        off_lines(s, x, y) == s.filter(|p: Point<T>| p.x != x && p.y != y),
    decreases s.len(),
{
    reveal_with_fuel(Seq::filter, 1);
    if s.len() > 0 {
        law_off_lines_keeps_the_rest(s.drop_last(), x, y);
        let f = s.drop_last().filter(|p: Point<T>| p.x != x && p.y != y);
        if s.last().x != x && s.last().y != y {
            assert(f + seq![s.last()] =~= f.push(s.last()));
        } else {
            assert(f + Seq::<Point<T>>::empty() =~= f);
        }
    } else {
        assert(off_lines(s, x, y) =~= s);
    }
}

} // verus!
