//! The mathematical model of a maze: a grid of characters, its open cells and
//! the four-neighbour adjacency between them.
use vstd::prelude::*;

verus! {

/// A maze as read from a level file: rows of cell characters.
pub type Maze = Vec<Vec<char>>;

/// The character grid of a maze.
pub open spec fn grid(maze: &Maze) -> Seq<Seq<char>> {
    maze.deep_view()
}

/// Cells that can be walked on: open floor, the start and the goal.
pub open spec fn walkable(c: char) -> bool {
    c == ' ' || c == 'p' || c == 'g'
}

/// `c = (x, y)` names an existing cell: row `y` exists and is long enough.
pub open spec fn in_grid(g: Seq<Seq<char>>, c: (int, int)) -> bool {
    0 <= c.1 < g.len() && 0 <= c.0 < g[c.1].len()
}

/// The character at cell `c`.
pub open spec fn cell_char(g: Seq<Seq<char>>, c: (int, int)) -> char {
    g[c.1][c.0]
}

/// An existing cell that can be walked on.
pub open spec fn open_cell(g: Seq<Seq<char>>, c: (int, int)) -> bool {
    in_grid(g, c) && walkable(cell_char(g, c))
}

/// The neighbour of `c` in direction `d`; the directions are, in order,
/// right, left, down and up.
pub open spec fn step(c: (int, int), d: int) -> (int, int) {
    if d == 0 {
        (c.0 + 1, c.1)
    } else if d == 1 {
        (c.0 - 1, c.1)
    } else if d == 2 {
        (c.0, c.1 + 1)
    } else {
        (c.0, c.1 - 1)
    }
}

/// `a` and `b` are four-neighbours.
pub open spec fn adjacent(a: (int, int), b: (int, int)) -> bool {
    ||| a.1 == b.1 && (b.0 == a.0 + 1 || b.0 == a.0 - 1)
    ||| a.0 == b.0 && (b.1 == a.1 + 1 || b.1 == a.1 - 1)
}

/// The direction in which `b` lies seen from its neighbour `a`.
pub open spec fn dir(a: (int, int), b: (int, int)) -> int {
    if b == (a.0 + 1, a.1) {
        0
    } else if b == (a.0 - 1, a.1) {
        1
    } else if b == (a.0, a.1 + 1) {
        2
    } else {
        3
    }
}

/// A walk through open cells, each step to a four-neighbour.
pub open spec fn is_path(g: Seq<Seq<char>>, p: Seq<(int, int)>) -> bool {
    &&& p.len() > 0
    &&& forall|i: int| 0 <= i < p.len() ==> open_cell(g, #[trigger] p[i])
    &&& forall|i: int| 0 <= i < p.len() - 1 ==> adjacent(#[trigger] p[i], p[i + 1])
}

/// `b` can be reached from `a` by walking through open cells.
pub open spec fn connected(g: Seq<Seq<char>>, a: (int, int), b: (int, int)) -> bool {
    exists|p: Seq<(int, int)>| is_path(g, p) && p[0] == a && #[trigger] p.last() == b
}

/// `b` can be reached from `a` in at most `n` steps.
pub open spec fn within_steps(g: Seq<Seq<char>>, a: (int, int), b: (int, int), n: nat) -> bool {
    exists|p: Seq<(int, int)>| is_path(g, p) && p[0] == a && #[trigger] p.last() == b && p.len() <= n + 1
}

/// The number of steps of a shortest walk from `a` to `b`, for connected
/// cells.
pub open spec fn distance(g: Seq<Seq<char>>, a: (int, int), b: (int, int)) -> nat {
    choose|n: nat| within_steps(g, a, b, n) && forall|m: nat| m < n ==> !#[trigger] within_steps(g, a, b, m)
}

/// The cells, as integer pairs, of a vector of cell coordinates.
pub open spec fn as_cells(v: Seq<(usize, usize)>) -> Seq<(int, int)> {
    Seq::new(v.len(), |i: int| (v[i].0 as int, v[i].1 as int))
}

pub proof fn lemma_step_adjacent(c: (int, int), d: int)
    requires
        0 <= d < 4,
    ensures
        adjacent(c, step(c, d)),
        adjacent(step(c, d), c),
        dir(c, step(c, d)) == d,
{
}

pub proof fn lemma_adjacent_step(a: (int, int), b: (int, int))
    requires
        adjacent(a, b),
    ensures
        0 <= dir(a, b) < 4,
        step(a, dir(a, b)) == b,
        adjacent(b, a),
{
}

/// Connection is reflexive on open cells.
pub proof fn lemma_connected_refl(g: Seq<Seq<char>>, a: (int, int))
    requires
        open_cell(g, a),
    ensures
        connected(g, a, a),
{
    let p = seq![a];
    assert(is_path(g, p));
    assert(p.last() == a);
}

/// Connection extends by one open neighbour.
pub proof fn lemma_connected_step(g: Seq<Seq<char>>, a: (int, int), b: (int, int), c: (int, int))
    requires
        connected(g, a, b),
        adjacent(b, c),
        open_cell(g, c),
    ensures
        connected(g, a, c),
{
    let p = choose|p: Seq<(int, int)>| is_path(g, p) && p[0] == a && #[trigger] p.last() == b;
    let q = p.push(c);
    assert forall|i: int| 0 <= i < q.len() - 1 implies adjacent(#[trigger] q[i], q[i + 1]) by {
        if i < p.len() - 1 {
            assert(q[i] == p[i] && q[i + 1] == p[i + 1]);
        } else {
            assert(q[i] == b);
        }
    }
    assert forall|i: int| 0 <= i < q.len() implies open_cell(g, #[trigger] q[i]) by {
        if i < p.len() {
            assert(q[i] == p[i]);
        }
    }
    assert(is_path(g, q));
    assert(q.last() == c);
}

/// Connection is symmetric.
pub proof fn lemma_connected_symm(g: Seq<Seq<char>>, a: (int, int), b: (int, int))
    requires
        connected(g, a, b),
    ensures
        connected(g, b, a),
{
    let p = choose|p: Seq<(int, int)>| is_path(g, p) && p[0] == a && #[trigger] p.last() == b;
    let q = p.reverse();
    assert forall|i: int| 0 <= i < q.len() implies open_cell(g, #[trigger] q[i]) by {
        assert(q[i] == p[p.len() - 1 - i]);
    }
    assert forall|i: int| 0 <= i < q.len() - 1 implies adjacent(#[trigger] q[i], q[i + 1]) by {
        let k = p.len() - 2 - i;
        assert(q[i] == p[k + 1]);
        assert(q[i + 1] == p[k]);
        assert(adjacent(p[k], p[k + 1]));
    }
    assert(is_path(g, q));
    assert(q[0] == b);
    assert(q.last() == a);
}

/// Connection is transitive.
pub proof fn lemma_connected_trans(g: Seq<Seq<char>>, a: (int, int), b: (int, int), c: (int, int))
    requires
        connected(g, a, b),
        connected(g, b, c),
    ensures
        connected(g, a, c),
{
    let p = choose|p: Seq<(int, int)>| is_path(g, p) && p[0] == a && #[trigger] p.last() == b;
    let q = choose|q: Seq<(int, int)>| is_path(g, q) && q[0] == b && #[trigger] q.last() == c;
    let r = p + q.drop_first();
    assert forall|i: int| 0 <= i < r.len() implies open_cell(g, #[trigger] r[i]) by {
        if i < p.len() {
            assert(r[i] == p[i]);
        } else {
            assert(r[i] == q[i - p.len() + 1]);
        }
    }
    assert forall|i: int| 0 <= i < r.len() - 1 implies adjacent(#[trigger] r[i], r[i + 1]) by {
        if i < p.len() - 1 {
            assert(r[i] == p[i] && r[i + 1] == p[i + 1]);
        } else if i == p.len() - 1 {
            assert(r[i] == b);
            assert(r[i + 1] == q[1]);
            assert(adjacent(q[0], q[1]));
        } else {
            assert(r[i] == q[i - p.len() + 1]);
            assert(r[i + 1] == q[i - p.len() + 2]);
        }
    }
    assert(is_path(g, r));
    if q.len() == 1 {
        assert(r.last() == p.last());
    } else {
        assert(r.last() == q.last());
    }
    assert(r[0] == a);
}

/// Both ends of a connection are open cells.
pub proof fn lemma_connected_open(g: Seq<Seq<char>>, a: (int, int), b: (int, int))
    requires
        connected(g, a, b),
    ensures
        open_cell(g, a),
        open_cell(g, b),
{
    let p = choose|p: Seq<(int, int)>| is_path(g, p) && p[0] == a && #[trigger] p.last() == b;
    assert(open_cell(g, p[0]));
    assert(open_cell(g, p[p.len() - 1]));
}

/// `g` is the character grid of `maze`, row by row and cell by cell.
pub open spec fn grid_facts(maze: &Maze, g: Seq<Seq<char>>) -> bool {
    &&& g.len() == maze@.len()
    &&& forall|y: int| 0 <= y < maze@.len() ==> #[trigger] g[y].len() == maze@[y]@.len()
    &&& forall|y: int, x: int|
        0 <= y < maze@.len() && 0 <= x < maze@[y]@.len() ==> #[trigger] g[y][x] == maze@[y]@[x]
}

/// The grid of a maze has the maze's rows and cells.
pub proof fn lemma_grid(maze: &Maze)
    ensures
        grid_facts(maze, grid(maze)),
{
}

/// `a` comes before `b` in row-major order.
pub open spec fn row_major_before(a: (int, int), b: (int, int)) -> bool {
    a.1 < b.1 || (a.1 == b.1 && a.0 < b.0)
}

/// The grid with cell `c` replaced by `ch`.
pub open spec fn set_cell(g: Seq<Seq<char>>, c: (int, int), ch: char) -> Seq<Seq<char>> {
    g.update(c.1, g[c.1].update(c.0, ch))
}

/// The cells connected to `c`.
pub open spec fn region(g: Seq<Seq<char>>, c: (int, int)) -> Set<(int, int)> {
    Set::new(|d: (int, int)| connected(g, c, d))
}

/// The number of cells connected to `c`.
pub open spec fn region_size(g: Seq<Seq<char>>, c: (int, int)) -> nat {
    region(g, c).len()
}

/// Connected cells have the same region.
pub proof fn lemma_same_region(g: Seq<Seq<char>>, a: (int, int), b: (int, int))
    requires
        connected(g, a, b),
    ensures
        region(g, a) == region(g, b),
        region_size(g, a) == region_size(g, b),
{
    assert forall|d: (int, int)| region(g, a).contains(d) <==> region(g, b).contains(d) by {
        if connected(g, a, d) {
            lemma_connected_symm(g, a, b);
            lemma_connected_trans(g, b, a, d);
        }
        if connected(g, b, d) {
            lemma_connected_trans(g, a, b, d);
        }
    }
    assert(region(g, a) =~= region(g, b));
}

} // verus!
