//! Breadth-first exploration of the open cells of a maze.
//!
//! A breadth-first order is characterised without reference to a queue: it
//! starts at the start cell, lists each cell once, is closed under walking to
//! an open neighbour, and lists every later cell after the first listed
//! neighbour that discovers it, ordered by (discoverer, direction).
use vstd::prelude::*;
use crate::grid::{
    adjacent, as_cells, connected, dir, distance, grid, in_grid, is_path, lemma_adjacent_step,
    lemma_grid, lemma_connected_refl, lemma_connected_step, lemma_step_adjacent, open_cell, step,
    walkable, within_steps, Maze,
};

verus! {

/// `j` is the first position of `s` holding a neighbour of `s[i]`.
pub open spec fn first_adjacent(s: Seq<(int, int)>, i: int, j: int) -> bool {
    &&& 0 <= j < i < s.len()
    &&& adjacent(s[j], s[i])
    &&& forall|k: int| 0 <= k < j ==> !adjacent(#[trigger] s[k], s[i])
}

/// Some earlier position holds a neighbour of `s[i]`.
pub open spec fn has_discoverer(s: Seq<(int, int)>, i: int) -> bool {
    exists|j: int| first_adjacent(s, i, j)
}

/// Lexicographic order on (discoverer position, direction).
pub open spec fn key_less(j1: int, d1: int, j2: int, d2: int) -> bool {
    j1 < j2 || (j1 == j2 && d1 < d2)
}

/// Every open neighbour of a listed cell is listed.
pub open spec fn closed_under_steps(g: Seq<Seq<char>>, s: Seq<(int, int)>) -> bool {
    forall|i: int, d: int|
        #![trigger step(s[i], d)]
        0 <= i < s.len() && 0 <= d < 4 && open_cell(g, step(s[i], d)) ==> s.contains(step(s[i], d))
}

/// `s` is the breadth-first order of the open cells reachable from `start`,
/// neighbours being tried right, left, down, up.
pub open spec fn is_bfs_order(g: Seq<Seq<char>>, start: (int, int), s: Seq<(int, int)>) -> bool {
    &&& s.len() > 0
    &&& s[0] == start
    &&& s.no_duplicates()
    &&& forall|i: int| 0 <= i < s.len() ==> open_cell(g, #[trigger] s[i])
    &&& closed_under_steps(g, s)
    &&& forall|i: int| 1 <= i < s.len() ==> #[trigger] has_discoverer(s, i)
    &&& forall|i1: int, i2: int, j1: int, j2: int|
        #![trigger first_adjacent(s, i1, j1), first_adjacent(s, i2, j2)]
        i1 < i2 && first_adjacent(s, i1, j1) && first_adjacent(s, i2, j2) ==> key_less(
            j1,
            dir(s[j1], s[i1]),
            j2,
            dir(s[j2], s[i2]),
        )
}

/// The position that discovers `s[i]` in a breadth-first order.
pub open spec fn bfs_parent(s: Seq<(int, int)>, i: int) -> int {
    if has_discoverer(s, i) {
        choose|j: int| first_adjacent(s, i, j)
    } else {
        -1
    }
}

/// The number of steps from the start to `s[i]` along discoverers.
pub open spec fn bfs_depth(s: Seq<(int, int)>, i: int) -> nat
    decreases i,
{
    if i <= 0 {
        0
    } else {
        let j = bfs_parent(s, i);
        if 0 <= j < i {
            bfs_depth(s, j) + 1
        } else {
            0
        }
    }
}

/// Position `k` is the first position of `s` whose depth is largest.
pub open spec fn is_first_deepest(s: Seq<(int, int)>, k: int) -> bool {
    &&& 0 <= k < s.len()
    &&& forall|i: int| 0 <= i < s.len() ==> #[trigger] bfs_depth(s, i) <= bfs_depth(s, k)
    &&& forall|i: int| 0 <= i < k ==> #[trigger] bfs_depth(s, i) < bfs_depth(s, k)
}

/// The cell farthest, along discoverers, from the start of a breadth-first
/// order; the first such cell in the order when several are equally far.
pub open spec fn farthest_of(s: Seq<(int, int)>) -> (int, int) {
    s[choose|k: int| is_first_deepest(s, k)]
}

/// The first neighbour is unique.
pub proof fn lemma_first_adjacent_unique(s: Seq<(int, int)>, i: int, j1: int, j2: int)
    requires
        first_adjacent(s, i, j1),
        first_adjacent(s, i, j2),
    ensures
        j1 == j2,
{
    if j1 < j2 {
        assert(!adjacent(s[j1], s[i]));
    } else if j2 < j1 {
        assert(!adjacent(s[j2], s[i]));
    }
}

/// The discoverer relation and the depths of a prefix do not change when
/// cells are appended.
pub proof fn lemma_depth_prefix(s: Seq<(int, int)>, t: Seq<(int, int)>, i: int)
    requires
        s.len() <= t.len(),
        forall|k: int| 0 <= k < s.len() ==> s[k] == t[k],
        0 <= i < s.len(),
    ensures
        bfs_depth(s, i) == bfs_depth(t, i),
        bfs_parent(s, i) == bfs_parent(t, i),
    decreases i,
{
    assert forall|j: int| first_adjacent(s, i, j) <==> first_adjacent(t, i, j) by {
        if 0 <= j < i {
            assert(s[j] == t[j] && s[i] == t[i]);
            assert forall|k: int| 0 <= k < j implies s[k] == t[k] by {}
        }
    }
    if has_discoverer(s, i) {
        let js = choose|j: int| first_adjacent(s, i, j);
        assert(first_adjacent(t, i, js));
        let jt = choose|j: int| first_adjacent(t, i, j);
        lemma_first_adjacent_unique(t, i, js, jt);
    } else {
        if has_discoverer(t, i) {
            let jt = choose|j: int| first_adjacent(t, i, j);
            assert(first_adjacent(s, i, jt));
        }
    }
    assert(bfs_parent(s, i) == bfs_parent(t, i));
    if i > 0 {
        let j = bfs_parent(s, i);
        if 0 <= j < i {
            lemma_depth_prefix(s, t, j);
        }
    }
}

/// A breadth-first order lists exactly the cells connected to the start.
pub proof fn lemma_bfs_order_is_component(g: Seq<Seq<char>>, start: (int, int), s: Seq<(int, int)>, c: (int, int))
    requires
        is_bfs_order(g, start, s),
    ensures
        s.contains(c) <==> connected(g, start, c),
{
    if s.contains(c) {
        let i = choose|i: int| 0 <= i < s.len() && s[i] == c;
        lemma_bfs_prefix_connected(g, start, s, i);
    }
    if connected(g, start, c) {
        let p = choose|p: Seq<(int, int)>| is_path(g, p) && p[0] == start && #[trigger] p.last() == c;
        lemma_bfs_contains_path(g, start, s, p, p.len() - 1);
    }
}

proof fn lemma_bfs_prefix_connected(g: Seq<Seq<char>>, start: (int, int), s: Seq<(int, int)>, i: int)
    requires
        is_bfs_order(g, start, s),
        0 <= i < s.len(),
    ensures
        connected(g, start, s[i]),
    decreases i,
{
    if i == 0 {
        assert(open_cell(g, s[0]));
        lemma_connected_refl(g, start);
    } else {
        assert(has_discoverer(s, i));
        let j = choose|j: int| first_adjacent(s, i, j);
        lemma_bfs_prefix_connected(g, start, s, j);
        assert(open_cell(g, s[i]));
        lemma_connected_step(g, start, s[j], s[i]);
    }
}

proof fn lemma_bfs_contains_path(g: Seq<Seq<char>>, start: (int, int), s: Seq<(int, int)>, p: Seq<(int, int)>, k: int)
    requires
        is_bfs_order(g, start, s),
        is_path(g, p),
        p[0] == start,
        0 <= k < p.len(),
    ensures
        s.contains(p[k]),
    decreases k,
{
    if k == 0 {
        assert(s[0] == p[0]);
    } else {
        lemma_bfs_contains_path(g, start, s, p, k - 1);
        let i = choose|i: int| 0 <= i < s.len() && s[i] == p[k - 1];
        assert(adjacent(p[k - 1], p[k]));
        lemma_adjacent_step(p[k - 1], p[k]);
        let d = dir(p[k - 1], p[k]);
        assert(open_cell(g, p[k]));
        assert(step(s[i], d) == p[k]);
    }
}

/// Two breadth-first orders from the same start in the same maze list the
/// same cells.
proof fn lemma_bfs_same_cells(g: Seq<Seq<char>>, start: (int, int), s: Seq<(int, int)>, t: Seq<(int, int)>, c: (int, int))
    requires
        is_bfs_order(g, start, s),
        is_bfs_order(g, start, t),
    ensures
        s.contains(c) <==> t.contains(c),
{
    lemma_bfs_order_is_component(g, start, s, c);
    lemma_bfs_order_is_component(g, start, t, c);
}

/// The breadth-first order from a start is unique.
pub proof fn lemma_bfs_order_unique(g: Seq<Seq<char>>, start: (int, int), s: Seq<(int, int)>, t: Seq<(int, int)>)
    requires
        is_bfs_order(g, start, s),
        is_bfs_order(g, start, t),
    ensures
        s == t,
{
    lemma_bfs_prefix_equal(g, start, s, t, s.len() as int);
    if t.len() > s.len() {
        let c = t[s.len() as int];
        lemma_bfs_same_cells(g, start, s, t, c);
        assert(t.contains(c));
        let i = choose|i: int| 0 <= i < s.len() && s[i] == c;
        assert(t[i] == c);
    }
    assert(s =~= t);
}

/// Induction: the two orders agree on their first `n` positions.
proof fn lemma_bfs_prefix_equal(g: Seq<Seq<char>>, start: (int, int), s: Seq<(int, int)>, t: Seq<(int, int)>, n: int)
    requires
        is_bfs_order(g, start, s),
        is_bfs_order(g, start, t),
        0 <= n <= s.len(),
    ensures
        n <= t.len(),
        forall|k: int| 0 <= k < n ==> s[k] == t[k],
    decreases n,
{
    if n > 0 {
        lemma_bfs_prefix_equal(g, start, s, t, n - 1);
        let k = n - 1;
        if k == 0 {
            return;
        }
        // s[k] is listed in t, after the common prefix.
        let a = s[k];
        lemma_bfs_same_cells(g, start, s, t, a);
        assert(s.contains(a));
        let ma = choose|m: int| 0 <= m < t.len() && t[m] == a;
        if ma < k {
            assert(s[ma] == t[ma]);
        }
        assert(ma >= k);
        assert(k < t.len());
        let b = t[k];
        if a != b {
            lemma_bfs_same_cells(g, start, s, t, b);
            assert(t.contains(b));
            let mb = choose|m: int| 0 <= m < s.len() && s[m] == b;
            if mb < k {
                assert(t[mb] == s[mb]);
            }
            assert(mb > k);
            // Discoverers of a and b, in s.
            assert(has_discoverer(s, k));
            assert(has_discoverer(t, k));
            let ja = choose|j: int| first_adjacent(s, k, j);
            let jb = choose|j: int| first_adjacent(t, k, j);
            // ja is also the discoverer of a in t; jb that of b in s.
            assert(first_adjacent(t, ma, ja)) by {
                assert(t[ja] == s[ja]);
                assert forall|q: int| 0 <= q < ja implies !adjacent(#[trigger] t[q], t[ma]) by {
                    assert(t[q] == s[q]);
                }
            }
            assert(first_adjacent(s, mb, jb)) by {
                assert(s[jb] == t[jb]);
                assert forall|q: int| 0 <= q < jb implies !adjacent(#[trigger] s[q], s[mb]) by {
                    assert(s[q] == t[q]);
                }
            }
            assert(key_less(ja, dir(s[ja], s[k]), jb, dir(s[jb], s[mb])));
            assert(key_less(jb, dir(t[jb], t[k]), ja, dir(t[ja], t[ma])));
            assert(s[ja] == t[ja] && s[jb] == t[jb]);
            assert(false);
        }
    }
}

/// In a breadth-first order, later cells have later (or equal) discoverers.
proof fn lemma_parent_monotone(g: Seq<Seq<char>>, start: (int, int), s: Seq<(int, int)>, i1: int, i2: int)
    requires
        is_bfs_order(g, start, s),
        1 <= i1 < i2 < s.len(),
    ensures
        0 <= bfs_parent(s, i1) <= bfs_parent(s, i2),
        bfs_parent(s, i1) < i1,
        bfs_parent(s, i2) < i2,
{
    assert(has_discoverer(s, i1));
    assert(has_discoverer(s, i2));
    let j1 = bfs_parent(s, i1);
    let j2 = bfs_parent(s, i2);
    assert(first_adjacent(s, i1, j1));
    assert(first_adjacent(s, i2, j2));
    assert(key_less(j1, dir(s[j1], s[i1]), j2, dir(s[j2], s[i2])));
}

/// In a breadth-first order, depths never decrease along the order.
pub proof fn lemma_depth_monotone(g: Seq<Seq<char>>, start: (int, int), s: Seq<(int, int)>, i1: int, i2: int)
    requires
        is_bfs_order(g, start, s),
        0 <= i1 <= i2 < s.len(),
    ensures
        bfs_depth(s, i1) <= bfs_depth(s, i2),
    decreases i2,
{
    if i1 > 0 && i1 < i2 {
        lemma_parent_monotone(g, start, s, i1, i2);
        let j1 = bfs_parent(s, i1);
        let j2 = bfs_parent(s, i2);
        lemma_depth_monotone(g, start, s, j1, j2);
    }
}

/// The depths of neighbouring listed cells differ by at most one step.
proof fn lemma_depth_adjacent(g: Seq<Seq<char>>, start: (int, int), s: Seq<(int, int)>, i: int, k: int)
    requires
        is_bfs_order(g, start, s),
        0 <= i < s.len(),
        0 <= k < s.len(),
        adjacent(s[i], s[k]),
    ensures
        bfs_depth(s, k) <= bfs_depth(s, i) + 1,
{
    if k <= i {
        lemma_depth_monotone(g, start, s, k, i);
    } else {
        assert(has_discoverer(s, k));
        let j = bfs_parent(s, k);
        assert(first_adjacent(s, k, j));
        assert(j <= i);
        lemma_depth_monotone(g, start, s, j, i);
    }
}

/// A walk of `m` steps from the start ends at a cell no deeper than `m`.
proof fn lemma_walk_bounds_depth(
    g: Seq<Seq<char>>,
    start: (int, int),
    s: Seq<(int, int)>,
    p: Seq<(int, int)>,
    m: int,
)
    requires
        is_bfs_order(g, start, s),
        is_path(g, p),
        p[0] == start,
        0 <= m < p.len(),
    ensures
        forall|k: int| 0 <= k < s.len() && s[k] == p[m] ==> bfs_depth(s, k) <= m,
    decreases m,
{
    assert forall|k: int| 0 <= k < s.len() && s[k] == p[m] implies bfs_depth(s, k) <= m by {
        if m == 0 {
            if k != 0 {
                assert(s[k] == s[0]);
                assert(false);
            }
        } else {
            lemma_walk_bounds_depth(g, start, s, p, m - 1);
            lemma_bfs_contains_path(g, start, s, p, m - 1);
            let i = choose|i: int| 0 <= i < s.len() && s[i] == p[m - 1];
            assert(adjacent(p[m - 1], p[m]));
            lemma_depth_adjacent(g, start, s, i, k);
        }
    }
}

/// The walk along discoverers from the start to `s[k]`, one step per level
/// of depth.
proof fn discoverer_walk(g: Seq<Seq<char>>, start: (int, int), s: Seq<(int, int)>, k: int) -> (p: Seq<(int, int)>)
    requires
        is_bfs_order(g, start, s),
        0 <= k < s.len(),
    ensures
        is_path(g, p),
        p[0] == start,
        p.last() == s[k],
        p.len() == bfs_depth(s, k) + 1,
    decreases k,
{
    if k == 0 {
        let p = seq![start];
        assert(open_cell(g, s[0]));
        assert(is_path(g, p));
        p
    } else {
        assert(has_discoverer(s, k));
        let j = bfs_parent(s, k);
        assert(first_adjacent(s, k, j));
        let q = discoverer_walk(g, start, s, j);
        let p = q.push(s[k]);
        assert(open_cell(g, s[k]));
        assert forall|i: int| 0 <= i < p.len() implies open_cell(g, #[trigger] p[i]) by {
            if i < q.len() {
                assert(p[i] == q[i]);
            }
        }
        assert forall|i: int| 0 <= i < p.len() - 1 implies adjacent(#[trigger] p[i], p[i + 1]) by {
            if i < q.len() - 1 {
                assert(p[i] == q[i] && p[i + 1] == q[i + 1]);
            } else {
                assert(p[i] == s[j]);
            }
        }
        p
    }
}

/// The depth of a cell in a breadth-first order is its distance from the
/// start: the number of steps of a shortest walk to it.
pub proof fn lemma_bfs_depth_is_distance(g: Seq<Seq<char>>, start: (int, int), s: Seq<(int, int)>, k: int)
    requires
        is_bfs_order(g, start, s),
        0 <= k < s.len(),
    ensures
        distance(g, start, s[k]) == bfs_depth(s, k),
{
    let d = bfs_depth(s, k);
    let p = discoverer_walk(g, start, s, k);
    assert(within_steps(g, start, s[k], d));
    assert forall|m: nat| m < d implies !#[trigger] within_steps(g, start, s[k], m) by {
        if within_steps(g, start, s[k], m) {
            let q = choose|q: Seq<(int, int)>|
                is_path(g, q) && q[0] == start && #[trigger] q.last() == s[k] && q.len() <= m + 1;
            lemma_walk_bounds_depth(g, start, s, q, q.len() - 1);
        }
    }
    let n = distance(g, start, s[k]);
    assert(within_steps(g, start, s[k], n) && forall|m: nat| m < n ==> !#[trigger] within_steps(g, start, s[k], m));
    if n < d {
        assert(!within_steps(g, start, s[k], n));
    } else if d < n {
        assert(!within_steps(g, start, s[k], d));
    }
}

/// The farthest cell of a breadth-first order is at least as far from the
/// start as any cell connected to it.
pub proof fn lemma_farthest_is_farthest(g: Seq<Seq<char>>, start: (int, int), s: Seq<(int, int)>, c: (int, int))
    requires
        is_bfs_order(g, start, s),
        connected(g, start, c),
    ensures
        distance(g, start, c) <= distance(g, start, farthest_of(s)),
{
    lemma_bfs_order_is_component(g, start, s, c);
    let i = choose|i: int| 0 <= i < s.len() && s[i] == c;
    lemma_first_deepest_exists(s);
    let k = choose|k: int| is_first_deepest(s, k);
    lemma_bfs_depth_is_distance(g, start, s, i);
    lemma_bfs_depth_is_distance(g, start, s, k);
    assert(bfs_depth(s, i) <= bfs_depth(s, k));
}

/// The first deepest position among the first `n`.
proof fn first_deepest_upto(s: Seq<(int, int)>, n: int) -> (k: int)
    requires
        1 <= n <= s.len(),
    ensures
        0 <= k < n,
        forall|i: int| 0 <= i < n ==> #[trigger] bfs_depth(s, i) <= bfs_depth(s, k),
        forall|i: int| 0 <= i < k ==> #[trigger] bfs_depth(s, i) < bfs_depth(s, k),
    decreases n,
{
    if n == 1 {
        0
    } else {
        let k = first_deepest_upto(s, n - 1);
        if bfs_depth(s, n - 1) > bfs_depth(s, k) {
            n - 1
        } else {
            k
        }
    }
}

/// A non-empty order has a first deepest position.
proof fn lemma_first_deepest_exists(s: Seq<(int, int)>)
    requires
        s.len() > 0,
    ensures
        exists|k: int| is_first_deepest(s, k),
{
    let k = first_deepest_upto(s, s.len() as int);
    assert(is_first_deepest(s, k));
}

/// Visited marks laid out like the maze: one mark per cell.
pub open spec fn marks_shaped(maze: &Maze, v: Seq<Vec<bool>>) -> bool {
    &&& v.len() == maze@.len()
    &&& forall|y: int| 0 <= y < v.len() ==> #[trigger] v[y]@.len() == maze@[y]@.len()
}

/// The mark of cell `c`.
pub open spec fn marked(v: Seq<Vec<bool>>, c: (int, int)) -> bool {
    v[c.1]@[c.0]
}

/// Every marked cell is open, and so are marked its open neighbours: the
/// marks cover whole connected regions.
pub open spec fn marks_closed(g: Seq<Seq<char>>, v: Seq<Vec<bool>>) -> bool {
    forall|c: (int, int), d: int|
        #![trigger marked(v, c), step(c, d)]
        in_grid(g, c) && marked(v, c) && 0 <= d < 4 && open_cell(g, step(c, d)) ==> marked(v, step(c, d))
}

/// The number of unmarked cells in a row of marks.
pub open spec fn count_unmarked_row(r: Seq<bool>) -> nat
    decreases r.len(),
{
    if r.len() == 0 {
        0
    } else {
        count_unmarked_row(r.drop_last()) + if r.last() {
            0nat
        } else {
            1nat
        }
    }
}

/// The number of unmarked cells.
pub open spec fn count_unmarked(v: Seq<Vec<bool>>) -> nat
    decreases v.len(),
{
    if v.len() == 0 {
        0
    } else {
        count_unmarked(v.drop_last()) + count_unmarked_row(v.last()@)
    }
}

proof fn lemma_count_row_mark(r: Seq<bool>, x: int)
    requires
        0 <= x < r.len(),
        !r[x],
    ensures
        count_unmarked_row(r.update(x, true)) + 1 == count_unmarked_row(r),
    decreases r.len(),
{
    let u = r.update(x, true);
    if x == r.len() - 1 {
        assert(u.drop_last() =~= r.drop_last());
    } else {
        assert(u.drop_last() =~= r.drop_last().update(x, true));
        lemma_count_row_mark(r.drop_last(), x);
    }
}

proof fn lemma_count_mark(v: Seq<Vec<bool>>, w: Seq<Vec<bool>>, y: int)
    requires
        0 <= y < v.len(),
        w.len() == v.len(),
        forall|j: int| 0 <= j < v.len() && j != y ==> w[j] == v[j],
        count_unmarked_row(w[y]@) + 1 == count_unmarked_row(v[y]@),
    ensures
        count_unmarked(w) + 1 == count_unmarked(v),
    decreases v.len(),
{
    if y == v.len() - 1 {
        assert(w.drop_last() =~= v.drop_last());
    } else {
        lemma_count_mark(v.drop_last(), w.drop_last(), y);
    }
}

/// Marks cell `(x, y)`.
fn mark(v: &mut Vec<Vec<bool>>, x: usize, y: usize)
    requires
        y < old(v)@.len(),
        x < old(v)@[y as int]@.len(),
    ensures
        final(v)@.len() == old(v)@.len(),
        forall|j: int| 0 <= j < old(v)@.len() && j != y ==> final(v)@[j] == old(v)@[j],
        final(v)@[y as int]@ == old(v)@[y as int]@.update(x as int, true),
        !old(v)@[y as int]@[x as int] ==> count_unmarked(final(v)@) + 1 == count_unmarked(old(v)@),
{
    let ghost v0 = v@;
    v[y][x] = true;
    proof {
        if !v0[y as int]@[x as int] {
            lemma_count_row_mark(v0[y as int]@, x as int);
            lemma_count_mark(v0, v@, y as int);
        }
    }
}


/// The neighbour of `(x, y)` in direction `d`, if it is a cell of the maze.
pub fn neighbor(maze: &Maze, x: usize, y: usize, d: usize) -> (n: Option<(usize, usize)>)
    requires
        y < maze@.len(),
        x < maze@[y as int]@.len(),
        d < 4,
    ensures
        match n {
            Some(c) => in_grid(grid(maze), step((x as int, y as int), d as int)) && (c.0 as int, c.1 as int)
                == step((x as int, y as int), d as int),
            None => !in_grid(grid(maze), step((x as int, y as int), d as int)),
        },
{
    proof {
        lemma_grid(maze);
    }
    if d == 0 {
        let row_len = maze[y].len();
        if x + 1 < row_len {
            Some((x + 1, y))
        } else {
            None
        }
    } else if d == 1 {
        if x > 0 {
            Some((x - 1, y))
        } else {
            None
        }
    } else if d == 2 {
        let rows = maze.len();
        if y + 1 < rows && x < maze[y + 1].len() {
            Some((x, y + 1))
        } else {
            None
        }
    } else {
        if y > 0 && x < maze[y - 1].len() {
            Some((x, y - 1))
        } else {
            None
        }
    }
}

proof fn lemma_push_contains(s: Seq<(int, int)>, n: (int, int), c: (int, int))
    ensures
        s.push(n).contains(c) <==> (s.contains(c) || c == n),
{
    let t = s.push(n);
    if s.contains(c) {
        let i = choose|i: int| 0 <= i < s.len() && s[i] == c;
        assert(t[i] == c);
    }
    if c == n {
        assert(t[s.len() as int] == c);
    }
    if t.contains(c) {
        let i = choose|i: int| 0 <= i < t.len() && t[i] == c;
        if i < s.len() {
            assert(s[i] == c);
        }
    }
}

/// Explores, breadth first, the open cells reachable from `start` that are not
/// marked yet, marking them. Returns them in the order they are reached, with
/// the number of steps from `start` of each.
pub fn bfs_walk(maze: &Maze, start: (usize, usize), visited: &mut Vec<Vec<bool>>) -> (res: (
    Vec<(usize, usize)>,
    Vec<usize>,
))
    requires
        open_cell(grid(maze), (start.0 as int, start.1 as int)),
        marks_shaped(maze, old(visited)@),
        marks_closed(grid(maze), old(visited)@),
        !marked(old(visited)@, (start.0 as int, start.1 as int)),
    ensures
        marks_shaped(maze, final(visited)@),
        is_bfs_order(grid(maze), (start.0 as int, start.1 as int), as_cells(res.0@)),
        res.1@.len() == res.0@.len(),
        forall|i: int| 0 <= i < res.1@.len() ==> res.1@[i] == bfs_depth(as_cells(res.0@), i),
        forall|c: (int, int)|
            #![trigger marked(final(visited)@, c)]
            in_grid(grid(maze), c) ==> (marked(final(visited)@, c) <==> (marked(old(visited)@, c)
                || as_cells(res.0@).contains(c))),
        forall|i: int|
            0 <= i < res.0@.len() ==> !marked(old(visited)@, #[trigger] as_cells(res.0@)[i]),
{
    let ghost g = grid(maze);
    let ghost v0 = visited@;
    let ghost st = (start.0 as int, start.1 as int);
    proof {
        lemma_grid(maze);
    }
    let mut order: Vec<(usize, usize)> = Vec::new();
    order.push(start);
    let mut depth: Vec<usize> = Vec::new();
    depth.push(0);
    mark(visited, start.0, start.1);
    let ghost mut s: Seq<(int, int)> = seq![st];
    let ghost mut parents: Seq<int> = seq![-1int];
    proof {
        assert(as_cells(order@) =~= s);
        assert forall|c: (int, int)| in_grid(g, c) implies (marked(visited@, c) <==> (marked(v0, c)
            || s.contains(c))) by {
            lemma_push_contains(Seq::empty(), st, c);
            assert(seq![st] =~= Seq::<(int, int)>::empty().push(st));
        }
    }
    let mut head: usize = 0;
    while head < order.len()
        invariant
            g == grid(maze),
            g.len() == maze@.len(),
            forall|y: int| 0 <= y < maze@.len() ==> #[trigger] g[y].len() == maze@[y]@.len(),
            forall|y: int, x: int|
                0 <= y < maze@.len() && 0 <= x < maze@[y]@.len() ==> #[trigger] g[y][x] == maze@[y]@[x],
            marks_shaped(maze, visited@),
            marks_shaped(maze, v0),
            marks_closed(g, v0),
            !marked(v0, st),
            open_cell(g, st),
            st == (start.0 as int, start.1 as int),
            s == as_cells(order@),
            0 <= head <= order@.len(),
            depth@.len() == order@.len(),
            parents.len() == order@.len(),
            s.len() > 0,
            s[0] == st,
            s.no_duplicates(),
            forall|i: int| 0 <= i < s.len() ==> open_cell(g, #[trigger] s[i]) && !marked(v0, s[i]),
            forall|c: (int, int)|
                #![trigger marked(visited@, c)]
                #![trigger s.contains(c)]
                in_grid(g, c) ==> (marked(visited@, c) <==> (marked(v0, c) || s.contains(c))),
            forall|i: int, d: int|
                #![trigger step(s[i], d)]
                0 <= i < head && 0 <= d < 4 && open_cell(g, step(s[i], d)) ==> s.contains(step(s[i], d)),
            forall|i: int|
                1 <= i < s.len() ==> first_adjacent(s, i, #[trigger] parents[i]) && parents[i] < head,
            forall|i1: int, i2: int|
                #![trigger parents[i1], parents[i2]]
                1 <= i1 < i2 < s.len() ==> key_less(
                    parents[i1],
                    dir(s[parents[i1]], s[i1]),
                    parents[i2],
                    dir(s[parents[i2]], s[i2]),
                ),
            forall|i: int| 0 <= i < s.len() ==> #[trigger] depth@[i] == bfs_depth(s, i) && depth@[i] <= i,
        decreases count_unmarked(visited@), order@.len() - head,
    {
        let (x, y) = order[head];
        let ghost h = head as int;
        let ghost len0 = order@.len();
        let ghost count0 = count_unmarked(visited@);
        assert(s[h] == (x as int, y as int));
        assert(open_cell(g, s[h]));
        let mut d: usize = 0;
        while d < 4
            invariant
                g == grid(maze),
                g.len() == maze@.len(),
                forall|y: int| 0 <= y < maze@.len() ==> #[trigger] g[y].len() == maze@[y]@.len(),
                forall|y: int, x: int|
                    0 <= y < maze@.len() && 0 <= x < maze@[y]@.len() ==> #[trigger] g[y][x] == maze@[y]@[x],
                marks_shaped(maze, visited@),
                marks_shaped(maze, v0),
                marks_closed(g, v0),
                !marked(v0, st),
                open_cell(g, st),
                s == as_cells(order@),
                h == head,
                0 <= head < order@.len(),
                s[h] == (x as int, y as int),
                open_cell(g, s[h]),
                0 <= d <= 4,
                len0 <= order@.len(),
                count_unmarked(visited@) + (order@.len() - len0) == count0,
                depth@.len() == order@.len(),
                parents.len() == order@.len(),
                s.len() > 0,
                s[0] == st,
                s.no_duplicates(),
                forall|i: int| 0 <= i < s.len() ==> open_cell(g, #[trigger] s[i]) && !marked(v0, s[i]),
                forall|c: (int, int)|
                    #![trigger marked(visited@, c)]
                    #![trigger s.contains(c)]
                    in_grid(g, c) ==> (marked(visited@, c) <==> (marked(v0, c) || s.contains(c))),
                forall|i: int, e: int|
                    #![trigger step(s[i], e)]
                    0 <= i < head && 0 <= e < 4 && open_cell(g, step(s[i], e)) ==> s.contains(step(s[i], e)),
                forall|e: int|
                    0 <= e < d && open_cell(g, #[trigger] step(s[h], e)) ==> s.contains(step(s[h], e)),
                forall|i: int|
                    1 <= i < s.len() ==> first_adjacent(s, i, #[trigger] parents[i]) && parents[i] <= head,
                forall|i: int|
                    1 <= i < s.len() ==> (#[trigger] parents[i] < h || (parents[i] == h && dir(s[h], s[i]) < d)),
                forall|i1: int, i2: int|
                    #![trigger parents[i1], parents[i2]]
                    1 <= i1 < i2 < s.len() ==> key_less(
                        parents[i1],
                        dir(s[parents[i1]], s[i1]),
                        parents[i2],
                        dir(s[parents[i2]], s[i2]),
                    ),
                forall|i: int| 0 <= i < s.len() ==> #[trigger] depth@[i] == bfs_depth(s, i) && depth@[i] <= i,
            decreases 4 - d,
        {
            let ghost cur = s[h];
            match neighbor(maze, x, y, d) {
                Some((nx, ny)) => {
                    let ghost n = (nx as int, ny as int);
                    assert(n == step(cur, d as int));
                    if !visited[ny][nx] && crate::level::is_walkable_cell(maze[ny][nx]) {
                        assert(open_cell(g, n));
                        assert(!marked(visited@, n));
                        assert(!s.contains(n));
                        assert(!marked(v0, n));
                        let ghost old_s = s;
                        let ghost old_vis = visited@;
                        // n is first discovered by the cell at `head`.
                        assert forall|k: int| 0 <= k < h implies !adjacent(#[trigger] s[k], n) by {
                            if adjacent(s[k], n) {
                                lemma_adjacent_step(s[k], n);
                                let e = dir(s[k], n);
                                assert(step(s[k], e) == n);
                                assert(s.contains(step(s[k], e)));
                            }
                        }
                        proof {
                            lemma_step_adjacent(cur, d as int);
                        }
                        let olen = order.len();
                        assert(depth@[h] <= h);
                        let dn = depth[head] + 1;
                        order.push((nx, ny));
                        depth.push(dn);
                        mark(visited, nx, ny);
                        proof {
                            s = s.push(n);
                            parents = parents.push(h);
                            assert(as_cells(order@) =~= s);
                            let last = s.len() - 1;
                            assert(s[last] == n);
                            assert forall|k: int| 0 <= k < old_s.len() implies old_s[k] == s[k] by {}
                            assert(first_adjacent(s, last, h));
                            assert forall|i: int| 1 <= i < s.len() implies first_adjacent(s, i, #[trigger] parents[i]) && parents[i] <= head by {
                                if i < last {
                                    assert(first_adjacent(old_s, i, parents[i]));
                                    assert forall|k: int| 0 <= k < parents[i] implies !adjacent(#[trigger] s[k], s[i]) by {
                                        assert(s[k] == old_s[k]);
                                    }
                                }
                            }
                            assert forall|i1: int, i2: int|
                                #![trigger parents[i1], parents[i2]]
                                1 <= i1 < i2 < s.len() implies key_less(
                                    parents[i1],
                                    dir(s[parents[i1]], s[i1]),
                                    parents[i2],
                                    dir(s[parents[i2]], s[i2]),
                                ) by {
                                if i2 < last {
                                    assert(s[parents[i1]] == old_s[parents[i1]]);
                                    assert(s[parents[i2]] == old_s[parents[i2]]);
                                } else {
                                    assert(s[parents[i1]] == old_s[parents[i1]]);
                                    assert(s[i1] == old_s[i1]);
                                }
                            }
                            assert(has_discoverer(s, last));
                            let pj = choose|j: int| first_adjacent(s, last, j);
                            lemma_first_adjacent_unique(s, last, pj, h);
                            assert(bfs_parent(s, last) == h);
                            assert forall|i: int| 0 <= i < s.len() implies #[trigger] depth@[i] == bfs_depth(s, i) && depth@[i] <= i by {
                                if i < last {
                                    lemma_depth_prefix(old_s, s, i);
                                } else {
                                    lemma_depth_prefix(old_s, s, h);
                                }
                            }
                            assert forall|c: (int, int)| in_grid(g, c) implies (marked(visited@, c) <==> (marked(v0, c)
                                || s.contains(c))) by {
                                lemma_push_contains(old_s, n, c);
                                if c != n {
                                    assert(marked(visited@, c) == marked(old_vis, c));
                                }
                            }
                            assert forall|i: int, e: int|
                                #![trigger step(s[i], e)]
                                0 <= i < head && 0 <= e < 4 && open_cell(g, step(s[i], e)) implies s.contains(step(s[i], e)) by {
                                assert(s[i] == old_s[i]);
                                lemma_push_contains(old_s, n, step(s[i], e));
                            }
                            assert forall|e: int| 0 <= e <= d && open_cell(g, #[trigger] step(s[h], e)) implies s.contains(step(s[h], e)) by {
                                lemma_push_contains(old_s, n, step(s[h], e));
                            }
                            assert forall|i: int| 0 <= i < s.len() implies open_cell(g, #[trigger] s[i]) && !marked(v0, s[i]) by {
                                if i < last {
                                    assert(s[i] == old_s[i]);
                                }
                            }
                            assert(s.no_duplicates()) by {
                                assert forall|i: int, j: int| 0 <= i < j < s.len() implies s[i] != s[j] by {
                                    if j == last {
                                        assert(old_s[i] == s[i]);
                                    } else {
                                        assert(old_s[i] == s[i] && old_s[j] == s[j]);
                                    }
                                }
                            }
                        }
                    } else {
                        proof {
                            if open_cell(g, n) {
                                assert(marked(visited@, n));
                                assert(!marked(v0, n)) by {
                                    if marked(v0, n) {
                                        lemma_step_adjacent(cur, d as int);
                                        lemma_adjacent_step(n, cur);
                                        let e = dir(n, cur);
                                        assert(step(n, e) == cur);
                                        assert(marked(v0, step(n, e)));
                                    }
                                }
                                assert(s.contains(n));
                            }
                        }
                    }
                },
                None => {},
            }
            d = d + 1;
        }
        head = head + 1;
    }
    proof {
        assert forall|i: int| 1 <= i < s.len() implies #[trigger] has_discoverer(s, i) by {
            assert(first_adjacent(s, i, parents[i]));
        }
        assert forall|i1: int, i2: int, j1: int, j2: int|
            #![trigger first_adjacent(s, i1, j1), first_adjacent(s, i2, j2)]
            i1 < i2 && first_adjacent(s, i1, j1) && first_adjacent(s, i2, j2) implies key_less(
                j1,
                dir(s[j1], s[i1]),
                j2,
                dir(s[j2], s[i2]),
            ) by {
            lemma_first_adjacent_unique(s, i1, j1, parents[i1]);
            lemma_first_adjacent_unique(s, i2, j2, parents[i2]);
        }
        assert(closed_under_steps(g, s));
    }
    (order, depth)
}

/// The breadth-first order of the cells reachable from `start`.
pub open spec fn bfs_order(g: Seq<Seq<char>>, start: (int, int)) -> Seq<(int, int)> {
    choose|s: Seq<(int, int)>| is_bfs_order(g, start, s)
}

/// Any breadth-first order from `start` is the breadth-first order.
pub proof fn lemma_bfs_order_of(g: Seq<Seq<char>>, start: (int, int), s: Seq<(int, int)>)
    requires
        is_bfs_order(g, start, s),
    ensures
        bfs_order(g, start) == s,
{
    let t = bfs_order(g, start);
    assert(is_bfs_order(g, start, t));
    lemma_bfs_order_unique(g, start, s, t);
}

/// The position of the first deepest cell is unique.
pub proof fn lemma_first_deepest_unique(s: Seq<(int, int)>, k1: int, k2: int)
    requires
        is_first_deepest(s, k1),
        is_first_deepest(s, k2),
    ensures
        k1 == k2,
{
    if k1 < k2 {
        assert(bfs_depth(s, k1) < bfs_depth(s, k2));
        assert(bfs_depth(s, k2) <= bfs_depth(s, k1));
    } else if k2 < k1 {
        assert(bfs_depth(s, k2) < bfs_depth(s, k1));
        assert(bfs_depth(s, k1) <= bfs_depth(s, k2));
    }
}

} // verus!
