//! The integer rules of the world: which element the selection moves to,
//! which cells stay in the world, the tree of cell positions, and where the
//! brush may place a cell.
use crate::qtree::{QuadTree, Rect};
use vstd::prelude::*;

verus! {

/// How many cells a leaf of the world's tree holds before it splits.
pub const TREE_CAPACITY: usize = 500;

/// One step through the element list in `direction`, wrapping around at both ends.
pub open spec fn step(i: int, direction: int, n: int) -> int {
    if direction == 1 {
        if i + 1 >= n { 0 } else { i + 1 }
    } else {
        if i - 1 < 0 { n - 1 } else { i - 1 }
    }
}

/// Where `k` steps from `start` lead.
pub open spec fn walk(start: int, k: nat, direction: int, n: int) -> int
    decreases k,
{
    if k == 0 {
        start
    } else {
        step(walk(start, (k - 1) as nat, direction, n), direction, n)
    }
}

/// Going forward, `k` steps from `start` land on `(start + k) mod n`; going
/// backward, on `(start - k) mod n`.
proof fn lemma_walk_mod(start: int, k: nat, direction: int, n: int)
    requires
        0 <= start < n,
        direction == 1 || direction == -1,
    ensures
        walk(start, k, direction, n) == if direction == 1 {
            (start + k) % n
        } else {
            (start - k) % n
        },
    decreases k,
{
    if k == 0 {
        vstd::arithmetic::div_mod::lemma_small_mod(start as nat, n as nat);
    } else {
        lemma_walk_mod(start, (k - 1) as nat, direction, n);
        let prev = walk(start, (k - 1) as nat, direction, n);
        if direction == 1 {
            let a = start + k - 1;
            assert(prev == a % n);
            vstd::arithmetic::div_mod::lemma_add_mod_noop(a, 1, n);
            if n == 1 {
                assert(a % n == 0);
                assert((a + 1) % n == 0);
            } else {
                vstd::arithmetic::div_mod::lemma_small_mod(1, n as nat);
                if prev + 1 >= n {
                    assert(prev + 1 == n);
                    vstd::arithmetic::div_mod::lemma_mod_self_0(n);
                } else {
                    vstd::arithmetic::div_mod::lemma_small_mod((prev + 1) as nat, n as nat);
                }
            }
        } else {
            let a = start - (k - 1);
            assert(prev == a % n);
            vstd::arithmetic::div_mod::lemma_sub_mod_noop(a, 1, n);
            if n == 1 {
                assert(a % n == 0);
                assert((a - 1) % n == 0);
            } else {
                vstd::arithmetic::div_mod::lemma_small_mod(1, n as nat);
                if prev - 1 < 0 {
                    assert(prev == 0);
                    vstd::arithmetic::div_mod::lemma_mod_sub_multiples_vanish(n - 1, n);
                    vstd::arithmetic::div_mod::lemma_small_mod((n - 1) as nat, n as nat);
                } else {
                    vstd::arithmetic::div_mod::lemma_small_mod((prev - 1) as nat, n as nat);
                }
            }
        }
    }
}

/// Every other index is reached in fewer than `n` steps, and the walk does not
/// come back to its start before `n` steps.
proof fn lemma_walk_reaches(start: int, j: int, direction: int, n: int) -> (k: nat)
    requires
        0 <= start < n,
        0 <= j < n,
        j != start,
        direction == 1 || direction == -1,
    ensures
        1 <= k < n,
        walk(start, k, direction, n) == j,
        forall|m: nat| 1 <= m < n ==> #[trigger] walk(start, m, direction, n) != start,
{
    let k: int = if direction == 1 {
        (j - start) % n
    } else {
        (start - j) % n
    };
    assert forall|m: nat| 1 <= m < n implies #[trigger] walk(start, m, direction, n) != start by {
        lemma_walk_mod(start, m, direction, n);
        if direction == 1 {
            if start + m < n {
                vstd::arithmetic::div_mod::lemma_small_mod((start + m) as nat, n as nat);
            } else {
                vstd::arithmetic::div_mod::lemma_small_mod((start + m - n) as nat, n as nat);
                vstd::arithmetic::div_mod::lemma_mod_sub_multiples_vanish(start + m, n);
            }
        } else {
            if start - m >= 0 {
                vstd::arithmetic::div_mod::lemma_small_mod((start - m) as nat, n as nat);
            } else {
                vstd::arithmetic::div_mod::lemma_mod_add_multiples_vanish(start - m, n);
                vstd::arithmetic::div_mod::lemma_small_mod((start - m + n) as nat, n as nat);
            }
        }
    }
    if direction == 1 {
        if j > start {
            vstd::arithmetic::div_mod::lemma_small_mod((j - start) as nat, n as nat);
        } else {
            vstd::arithmetic::div_mod::lemma_mod_add_multiples_vanish(j - start, n);
            vstd::arithmetic::div_mod::lemma_small_mod((j - start + n) as nat, n as nat);
        }
        lemma_walk_mod(start, k as nat, direction, n);
        vstd::arithmetic::div_mod::lemma_small_mod(j as nat, n as nat);
        assert(start + k == j || start + k == j + n);
        if start + k == j + n {
            vstd::arithmetic::div_mod::lemma_mod_sub_multiples_vanish(j + n, n);
        }
    } else {
        if start > j {
            vstd::arithmetic::div_mod::lemma_small_mod((start - j) as nat, n as nat);
        } else {
            vstd::arithmetic::div_mod::lemma_mod_add_multiples_vanish(start - j, n);
            vstd::arithmetic::div_mod::lemma_small_mod((start - j + n) as nat, n as nat);
        }
        lemma_walk_mod(start, k as nat, direction, n);
        vstd::arithmetic::div_mod::lemma_small_mod(j as nat, n as nat);
        assert(start - k == j || start - k == j - n);
        if start - k == j - n {
            vstd::arithmetic::div_mod::lemma_mod_add_multiples_vanish(j - n, n);
        }
    }
    k as nat
}

/// `r` is what `k` steps from `from` reach, and every element passed on the
/// way is not drawable.
pub open spec fn selection_step(drawable: Seq<bool>, from: int, direction: int, r: int, k: nat) -> bool {
    &&& 1 <= k < drawable.len()
    &&& r == walk(from, k, direction, drawable.len() as int)
    &&& forall|m: nat|
        1 <= m < k ==> !drawable[walk(from, m, direction, drawable.len() as int)]
}

/// `r` is the first drawable element other than `from` when stepping from
/// `from` in `direction`, wrapping around.
pub open spec fn selects(drawable: Seq<bool>, from: int, direction: int, r: int) -> bool {
    &&& 0 <= r < drawable.len()
    &&& r != from
    &&& drawable[r]
    &&& exists|k: nat| #[trigger] selection_step(drawable, from, direction, r, k)
}

/// The element the selection moves to: stepping from `selected` in
/// `direction` (1 or -1, wrapping around), the first drawable element other
/// than `selected` itself. Some other element must be drawable, else the
/// search would go round for ever.
pub fn next_drawable(drawable: &Vec<bool>, selected: usize, direction: isize) -> (r: usize)
    requires
        selected < drawable.len(),
        drawable.len() <= isize::MAX,
        direction == 1 || direction == -1,
        exists|j: int| 0 <= j < drawable.len() && j != selected && #[trigger] drawable@[j],
    ensures
        r < drawable.len(),
        selects(drawable@, selected as int, direction as int, r as int),
{
    let n = drawable.len();
    let ghost s = selected as int;
    let ghost d = direction as int;
    let ghost target = choose|j: int| 0 <= j < n && j != selected && #[trigger] drawable@[j];
    let ghost goal = lemma_walk_reaches(s, target, d, n as int);
    let ghost mut k: nat = 0;
    let mut new_elm = selected;
    while !drawable[new_elm] || new_elm == selected
        invariant
            n == drawable.len(),
            n <= isize::MAX,
            selected < n,
            direction == 1 || direction == -1,
            s == selected,
            d == direction,
            0 <= target < n,
            target != selected,
            drawable@[target],
            1 <= goal < n,
            walk(s, goal, d, n as int) == target,
            forall|m: nat| 1 <= m < n ==> #[trigger] walk(s, m, d, n as int) != s,
            0 <= k <= goal,
            new_elm < n,
            new_elm == walk(s, k, d, n as int),
            forall|m: nat| 1 <= m < k ==> !drawable@[walk(s, m, d, n as int)],
        decreases goal - k,
    {
        proof {
            assert(k != goal);
            if k >= 1 {
                assert(walk(s, k, d, n as int) != s);
                assert(!drawable@[walk(s, k, d, n as int)]);
            }
        }
        let inner_elm = new_elm as isize + direction;
        proof {
            k = k + 1;
            assert(walk(s, k, d, n as int) == step(walk(s, (k - 1) as nat, d, n as int), d, n as int));
        }
        if inner_elm >= n as isize {
            new_elm = 0;
            continue;
        }
        if inner_elm < 0 {
            new_elm = n - 1;
            continue;
        }
        new_elm = inner_elm as usize;
    }
    proof {
        assert(k >= 1);
        assert(1 <= k < drawable.len() && new_elm == walk(s, k, d, n as int));
        assert(selection_step(drawable@, s, d, new_elm as int, k));
        assert(selects(drawable@, s, d, new_elm as int));
    }
    new_elm
}

/// Stepping `direction` and then back lands where it started.
proof fn lemma_step_back(i: int, direction: int, n: int)
    requires
        0 <= i < n,
        direction == 1 || direction == -1,
    ensures
        0 <= step(i, direction, n) < n,
        step(step(i, direction, n), -direction, n) == i,
{
}

/// A walk from `start` stays among the `n` indices.
proof fn lemma_walk_range(start: int, k: nat, direction: int, n: int)
    requires
        0 <= start < n,
        direction == 1 || direction == -1,
    ensures
        0 <= walk(start, k, direction, n) < n,
    decreases k,
{
    if k > 0 {
        lemma_walk_range(start, (k - 1) as nat, direction, n);
        lemma_step_back(walk(start, (k - 1) as nat, direction, n), direction, n);
    }
}

/// Walking `m` steps back from where `k` steps led retraces the last `m` of them.
proof fn lemma_walk_back(start: int, k: nat, m: nat, direction: int, n: int)
    requires
        0 <= start < n,
        direction == 1 || direction == -1,
        m <= k,
    ensures
        walk(walk(start, k, direction, n), m, -direction, n) == walk(
            start,
            (k - m) as nat,
            direction,
            n,
        ),
    decreases m,
{
    if m > 0 {
        lemma_walk_back(start, k, (m - 1) as nat, direction, n);
        lemma_walk_range(start, (k - m) as nat, direction, n);
        lemma_step_back(walk(start, (k - m) as nat, direction, n), direction, n);
        assert(walk(start, (k - m + 1) as nat, direction, n) == step(
            walk(start, (k - m) as nat, direction, n),
            direction,
            n,
        ));
    }
}

/// Moving the selection one way and then the other brings it back to an
/// element that was drawable.
pub proof fn law_select_back(drawable: Seq<bool>, s: int, direction: int, r: int, back: int)
    requires
        0 <= s < drawable.len(),
        drawable[s],
        direction == 1 || direction == -1,
        selects(drawable, s, direction, r),
        selects(drawable, r, -direction, back),
    ensures
        back == s,
{
    let n = drawable.len() as int;
    let k1 = choose|k: nat| #[trigger] selection_step(drawable, s, direction, r, k);
    let k2 = choose|k: nat| #[trigger] selection_step(drawable, r, -direction, back, k);
    lemma_walk_back(s, k1, k1, direction, n);
    if k2 < k1 {
        lemma_walk_back(s, k1, k2, direction, n);
        assert(!drawable[walk(s, (k1 - k2) as nat, direction, n)]);
    } else if k2 > k1 {
        assert(!drawable[walk(r, k1, -direction, n)]);
    }
}

/// A cell stays in the world while it is alive and strictly inside the
/// world's borders.
pub fn in_world(x_r: usize, y_r: usize, alive: bool, width: usize, height: usize) -> (r: bool)
    ensures
        r == (0 < x_r < width && 0 < y_r < height && alive),
{
    x_r > 0 && x_r < width && y_r > 0 && y_r < height && alive
}

/// The indices of the positions in `s` that equal `(x, y)`, in order.
pub open spec fn indices_at(s: Seq<(usize, usize)>, x: int, y: int) -> Seq<usize>
    decreases s.len(),
{
    if s.len() == 0 {
        Seq::empty()
    } else {
        indices_at(s.drop_last(), x, y) + if s.last().0 == x && s.last().1 == y {
            seq![(s.len() - 1) as usize]
        } else {
            Seq::empty()
        }
    }
}

/// A prefix holds no more matches than the whole sequence, and one fewer when
/// the next position is itself a match.
proof fn lemma_indices_prefix(s: Seq<(usize, usize)>, i: int, x: int, y: int)
    requires
        0 <= i < s.len(),
    ensures
        indices_at(s.take(i), x, y).len() + (if s[i].0 == x && s[i].1 == y { 1int } else { 0 })
            <= indices_at(s, x, y).len(),
    decreases s.len(),
{
    if i == s.len() - 1 {
        assert(s.take(i) =~= s.drop_last());
    } else {
        lemma_indices_prefix(s.drop_last(), i, x, y);
        assert(s.drop_last().take(i) =~= s.take(i));
    }
}

/// `trees` runs from the empty tree of the world through one insertion of
/// each cell, in order: the cell at index `i` under the payload `i`.
pub open spec fn inserted_in_turn(
    positions: Seq<(usize, usize)>,
    trees: Seq<QuadTree<usize>>,
    width: usize,
    height: usize,
) -> bool {
    &&& trees.len() == positions.len() + 1
    &&& trees[0].rect == (Rect { x1: 0, y1: 0, x2: width, y2: height })
    &&& trees[0].capacity == TREE_CAPACITY
    &&& trees[0].node is Leaf
    &&& trees[0].own_points().len() == 0
    &&& forall|i: int|
        0 <= i < positions.len() ==> {
            &&& QuadTree::stored_after_insert(
                #[trigger] trees[i],
                trees[i + 1],
                positions[i].0 as int,
                positions[i].1 as int,
                i as usize,
            )
            &&& QuadTree::reshaped_after_insert(
                trees[i],
                trees[i + 1],
                positions[i].0 as int,
                positions[i].1 as int,
                i as usize,
            )
        }
}

/// The tree of the cells' positions: the cell at index `i` of `positions` is
/// stored at its position under the payload `i`. Every position must lie
/// inside the world, and no more than `TREE_CAPACITY` cells may share one.
pub fn create_tree(positions: &Vec<(usize, usize)>, width: usize, height: usize) -> (tree:
    QuadTree<usize>)
    requires
        forall|i: int| 0 <= i < positions.len() ==> (#[trigger] positions@[i]).0 < width && positions@[i].1 < height,
        forall|x: int, y: int| #[trigger] indices_at(positions@, x, y).len() <= TREE_CAPACITY,
    ensures
        tree.wf(),
        tree.rect == (Rect { x1: 0, y1: 0, x2: width, y2: height }),
        tree.capacity == TREE_CAPACITY,
        forall|x: int, y: int| #[trigger] tree.at(x, y) == indices_at(positions@, x, y),
        exists|trees: Seq<QuadTree<usize>>|
            #[trigger] inserted_in_turn(positions@, trees, width, height) && trees.last() == tree,
        forall|i: int|
            0 <= i < positions.len() ==> match tree.lookup(
                (#[trigger] positions@[i]).0 as int,
                positions@[i].1 as int,
            ) {
                Some(v) => {
                    &&& v <= i
                    &&& positions@[v as int] == positions@[i]
                    &&& forall|m: int| 0 <= m < v ==> positions@[m] != positions@[i]
                },
                None => false,
            },
{
    let mut tree: QuadTree<usize> = QuadTree::new(0, 0, width, height, TREE_CAPACITY);
    let mut i: usize = 0;
    let ghost mut trees: Seq<QuadTree<usize>> = seq![tree];
    proof {
        assert(positions@.take(0) =~= Seq::<(usize, usize)>::empty());
    }
    while i < positions.len()
        invariant
            0 <= i <= positions.len(),
            forall|j: int| 0 <= j < positions.len() ==> (#[trigger] positions@[j]).0 < width && positions@[j].1 < height,
            forall|x: int, y: int| #[trigger] indices_at(positions@, x, y).len() <= TREE_CAPACITY,
            tree.wf(),
            tree.rect == (Rect { x1: 0, y1: 0, x2: width, y2: height }),
            tree.capacity == TREE_CAPACITY,
            forall|x: int, y: int| #[trigger] tree.at(x, y) == indices_at(positions@.take(i as int), x, y),
            trees.len() == i + 1,
            trees.last() == tree,
            trees[0].rect == (Rect { x1: 0, y1: 0, x2: width, y2: height }),
            trees[0].capacity == TREE_CAPACITY,
            trees[0].node is Leaf,
            trees[0].own_points().len() == 0,
            forall|j: int|
                0 <= j < i ==> {
                    &&& QuadTree::stored_after_insert(
                        #[trigger] trees[j],
                        trees[j + 1],
                        positions@[j].0 as int,
                        positions@[j].1 as int,
                        j as usize,
                    )
                    &&& QuadTree::reshaped_after_insert(
                        trees[j],
                        trees[j + 1],
                        positions@[j].0 as int,
                        positions@[j].1 as int,
                        j as usize,
                    )
                },
        decreases positions.len() - i,
    {
        let (x, y) = positions[i];
        proof {
            lemma_indices_prefix(positions@, i as int, x as int, y as int);
            assert(indices_at(positions@, x as int, y as int).len() <= TREE_CAPACITY);
            assert(positions@.take(i as int + 1).drop_last() =~= positions@.take(i as int));
        }
        let r = tree.insert(x, y, i);
        proof {
            let prev = trees;
            trees = trees.push(tree);
            assert forall|j: int| 0 <= j < i + 1 implies {
                &&& QuadTree::stored_after_insert(
                    #[trigger] trees[j],
                    trees[j + 1],
                    positions@[j].0 as int,
                    positions@[j].1 as int,
                    j as usize,
                )
                &&& QuadTree::reshaped_after_insert(
                    trees[j],
                    trees[j + 1],
                    positions@[j].0 as int,
                    positions@[j].1 as int,
                    j as usize,
                )
            } by {
                if j < i {
                    assert(trees[j] == prev[j]);
                    assert(trees[j + 1] == prev[j + 1]);
                } else {
                    assert(trees[j] == prev.last());
                }
            }
            assert forall|a: int, c: int| #[trigger] tree.at(a, c) == indices_at(positions@.take(i as int + 1), a, c) by {
                let pre = indices_at(positions@.take(i as int), a, c);
                assert(indices_at(positions@.take(i as int + 1), a, c) == pre + if x == a && y == c {
                    seq![i]
                } else {
                    Seq::<usize>::empty()
                });
                if x == a && y == c {
                    assert(pre.push(i) =~= pre + seq![i]);
                } else {
                    assert(pre + Seq::<usize>::empty() =~= pre);
                }
            }
        }
        i = i + 1;
    }
    proof {
        assert(positions@.take(i as int) =~= positions@);
        assert(inserted_in_turn(positions@, trees, width, height));
        law_tree_finds_first_cell(positions@, tree);
    }
    tree
}

/// The range a brush of radius `rad` centred on `centre` covers along one
/// axis: from `centre - rad` (0 when that would be negative) up to, not
/// including, `centre + rad`.
pub fn brush_span(centre: usize, rad: usize) -> (r: (usize, usize))
    requires
        centre + rad <= usize::MAX,
    ensures
        r.0 == if rad > centre { 0 } else { centre - rad },
        r.1 == centre + rad,
{
    let lo = if rad > centre { 0 } else { centre - rad };
    (lo, centre + rad)
}

/// Places the cell with index `index` at `(px, py)` when that point lies in
/// the world and no cell occupies it yet; says whether it did.
pub fn try_place(
    tree: &mut QuadTree<usize>,
    px: usize,
    py: usize,
    width: usize,
    height: usize,
    index: usize,
) -> (placed: bool)
    requires
        old(tree).wf(),
        old(tree).capacity > 0,
    ensures
        final(tree).wf(),
        final(tree).rect == old(tree).rect,
        final(tree).capacity == old(tree).capacity,
        placed == (px < width && py < height && old(tree).lookup(px as int, py as int) is None
            && old(tree).rect.holds(px as int, py as int)),
        placed ==> QuadTree::stored_after_insert(*old(tree), *final(tree), px as int, py as int, index),
        placed ==> QuadTree::reshaped_after_insert(*old(tree), *final(tree), px as int, py as int, index),
        !placed ==> *final(tree) == *old(tree),
{
    if px >= width || py >= height {
        return false;
    }
    if tree.get(px, py).is_some() {
        return false;
    }
    tree.insert(px, py, index).is_ok()
}

/// Which emitted cells join the world: each one whose position no cell of the
/// tree occupies. The tree is not updated between them, so two emitted cells
/// at the same free position both join.
pub fn emitted_to_keep(tree: &QuadTree<usize>, positions: &Vec<(usize, usize)>) -> (keep: Vec<bool>)
    requires
        tree.wf(),
    ensures
        keep.len() == positions.len(),
        forall|i: int|
            0 <= i < positions.len() ==> #[trigger] keep@[i] == tree.lookup(
                positions@[i].0 as int,
                positions@[i].1 as int,
            ) is None,
{
    let mut keep: Vec<bool> = Vec::new();
    let mut i: usize = 0;
    while i < positions.len()
        invariant
            tree.wf(),
            0 <= i <= positions.len(),
            keep.len() == i,
            forall|j: int|
                0 <= j < i ==> #[trigger] keep@[j] == tree.lookup(
                    positions@[j].0 as int,
                    positions@[j].1 as int,
                ) is None,
        decreases positions.len() - i,
    {
        let (x, y) = positions[i];
        keep.push(tree.get(x, y).is_none());
        i = i + 1;
    }
    keep
}

/// The indices kept for a location are exactly the indices of the positions
/// equal to it, each once, in increasing order.
pub proof fn law_indices_at(s: Seq<(usize, usize)>, x: int, y: int)
    requires
        s.len() <= usize::MAX,
    ensures
        forall|k: int|
            0 <= k < indices_at(s, x, y).len() ==> {
                let j = #[trigger] indices_at(s, x, y)[k] as int;
                0 <= j < s.len() && s[j].0 == x && s[j].1 == y
            },
        forall|k1: int, k2: int|
            0 <= k1 < k2 < indices_at(s, x, y).len() ==> #[trigger] indices_at(s, x, y)[k1]
                < #[trigger] indices_at(s, x, y)[k2],
        forall|j: int|
            0 <= j < s.len() && (#[trigger] s[j]).0 == x && s[j].1 == y ==> exists|k: int|
                0 <= k < indices_at(s, x, y).len() && indices_at(s, x, y)[k] == j,
    decreases s.len(),
{
    if s.len() > 0 {
        let p = s.drop_last();
        law_indices_at(p, x, y);
        let ip = indices_at(p, x, y);
        let is = indices_at(s, x, y);
        assert forall|k: int| 0 <= k < ip.len() implies is[k] == ip[k] by {}
        if s.last().0 == x && s.last().1 == y {
            assert(is.len() == ip.len() + 1);
            assert(is[ip.len() as int] == (s.len() - 1) as usize);
        } else {
            assert(is =~= ip);
        }
        assert forall|k: int| 0 <= k < is.len() implies {
            let j = #[trigger] is[k] as int;
            0 <= j < s.len() && s[j].0 == x && s[j].1 == y
        } by {
            if k < ip.len() {
                assert(is[k] == ip[k]);
                let j = ip[k] as int;
                assert(0 <= j < p.len() && p[j].0 == x && p[j].1 == y);
                assert(p[j] == s[j]);
            } else {
                assert(s.last().0 == x && s.last().1 == y);
                assert(is[k] == (s.len() - 1) as usize);
            }
        }
        assert forall|k1: int, k2: int| 0 <= k1 < k2 < is.len() implies #[trigger] is[k1] < #[trigger] is[k2] by {
            assert(is[k1] == ip[k1]);
            let j1 = ip[k1] as int;
            assert(0 <= j1 < p.len());
            if k2 < ip.len() {
                assert(is[k2] == ip[k2]);
                assert(ip[k1] < ip[k2]);
            } else {
                assert(s.last().0 == x && s.last().1 == y);
                assert(is[k2] == (s.len() - 1) as usize);
            }
        }
        assert forall|j: int| 0 <= j < s.len() && (#[trigger] s[j]).0 == x && s[j].1 == y implies exists|k: int|
            0 <= k < is.len() && is[k] == j by {
            if j < p.len() {
                assert(p[j] == s[j]);
                let k = choose|k: int| 0 <= k < ip.len() && ip[k] == j;
                assert(is[k] == j);
            } else {
                assert(is[ip.len() as int] == j);
            }
        }
    }
}

/// In the tree of cell positions, a lookup at the position of cell `i` gives
/// the first cell at that position: one no later than `i`, at the same place,
/// with no cell before it there. When no earlier cell shares the place, it is
/// `i` itself.
pub proof fn law_tree_finds_first_cell(positions: Seq<(usize, usize)>, tree: QuadTree<usize>)
    requires
        positions.len() <= usize::MAX,
        forall|x: int, y: int| #[trigger] tree.at(x, y) == indices_at(positions, x, y),
    ensures
        forall|i: int|
            0 <= i < positions.len() ==> match tree.lookup(
                (#[trigger] positions[i]).0 as int,
                positions[i].1 as int,
            ) {
                Some(v) => {
                    &&& v <= i
                    &&& positions[v as int] == positions[i]
                    &&& forall|m: int| 0 <= m < v ==> positions[m] != positions[i]
                },
                None => false,
            },
{
    assert forall|i: int| 0 <= i < positions.len() implies match tree.lookup(
        (#[trigger] positions[i]).0 as int,
        positions[i].1 as int,
    ) {
        Some(v) => {
            &&& v <= i
            &&& positions[v as int] == positions[i]
            &&& forall|m: int| 0 <= m < v ==> positions[m] != positions[i]
        },
        None => false,
    } by {
        let x = positions[i].0 as int;
        let y = positions[i].1 as int;
        law_indices_at(positions, x, y);
        let ix = indices_at(positions, x, y);
        assert(tree.at(x, y) == ix);
        let k = choose|k: int| 0 <= k < ix.len() && ix[k] == i;
        assert(ix.len() > 0);
        let v = ix[0];
        if k > 0 {
            assert(ix[0] < ix[k]);
        }
        let j0 = ix[0] as int;
        assert(positions[j0].0 == x && positions[j0].1 == y);
        assert forall|m: int| 0 <= m < v implies positions[m] != positions[i] by {
            if positions[m] == positions[i] {
                let km = choose|km: int| 0 <= km < ix.len() && ix[km] == m;
                if km > 0 {
                    assert(ix[0] < ix[km]);
                }
            }
        }
    }
}

} // verus!
