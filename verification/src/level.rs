//! Levels: walkable cells, the cells reachable from the start, and the
//! placement of start and goal in the largest open region of a maze.
use vstd::prelude::*;
use crate::grid::{
    as_cells, cell_char, connected, distance, grid, grid_facts, in_grid, lemma_connected_open, lemma_grid,
    lemma_same_region, open_cell, region, region_size, row_major_before, set_cell, step, walkable,
    Maze,
};
use crate::bfs::{
    bfs_depth, bfs_order, bfs_parent, bfs_walk, has_discoverer, closed_under_steps, farthest_of, is_bfs_order,
    is_first_deepest, lemma_bfs_order_is_component, lemma_farthest_is_farthest, lemma_bfs_order_of, lemma_first_deepest_unique,
    marked, marks_closed, marks_shaped,
};

verus! {

/// Whether a maze cell can be walked on: open floor, the start or the goal.
pub fn is_walkable_cell(cell: char) -> (walkable: bool)
    ensures
        walkable == crate::grid::walkable(cell),
{
    cell == ' ' || cell == 'p' || cell == 'g'
}

/// `c` is the first cell, in row-major order, holding `ch`.
pub open spec fn is_first_with(g: Seq<Seq<char>>, ch: char, c: (int, int)) -> bool {
    &&& in_grid(g, c)
    &&& cell_char(g, c) == ch
    &&& forall|d: (int, int)|
        #![trigger cell_char(g, d)]
        in_grid(g, d) && cell_char(g, d) == ch ==> !row_major_before(d, c)
}

/// Some cell holds `ch`.
pub open spec fn contains_char(g: Seq<Seq<char>>, ch: char) -> bool {
    exists|c: (int, int)| in_grid(g, c) && #[trigger] cell_char(g, c) == ch
}

/// The first cell, in row-major order, holding `ch`.
pub open spec fn first_with(g: Seq<Seq<char>>, ch: char) -> (int, int) {
    choose|c: (int, int)| is_first_with(g, ch, c)
}

/// There is only one first cell holding `ch`.
pub proof fn lemma_first_with_unique(g: Seq<Seq<char>>, ch: char, a: (int, int), b: (int, int))
    requires
        is_first_with(g, ch, a),
        is_first_with(g, ch, b),
    ensures
        a == b,
{
    assert(!row_major_before(a, b));
    assert(!row_major_before(b, a));
}

/// The first cell, in row-major order, holding `ch`, if any.
pub fn find_cell(maze: &Maze, ch: char) -> (r: Option<(usize, usize)>)
    ensures
        match r {
            Some(c) => is_first_with(grid(maze), ch, (c.0 as int, c.1 as int)) && first_with(grid(maze), ch)
                == (c.0 as int, c.1 as int),
            None => !contains_char(grid(maze), ch),
        },
{
    let ghost g = grid(maze);
    proof {
        lemma_grid(maze);
    }
    let mut y: usize = 0;
    while y < maze.len()
        invariant
            g == grid(maze),
            grid_facts(maze, g),
            0 <= y <= maze@.len(),
            forall|d: (int, int)|
                #![trigger cell_char(g, d)]
                in_grid(g, d) && d.1 < y ==> cell_char(g, d) != ch,
        decreases maze@.len() - y,
    {
        let row = &maze[y];
        let mut x: usize = 0;
        while x < row.len()
            invariant
                g == grid(maze),
                grid_facts(maze, g),
                0 <= y < maze@.len(),
                row@ == maze@[y as int]@,
                0 <= x <= row@.len(),
                forall|d: (int, int)|
                    #![trigger cell_char(g, d)]
                    in_grid(g, d) && (d.1 < y || (d.1 == y && d.0 < x)) ==> cell_char(g, d) != ch,
            decreases row@.len() - x,
        {
            if row[x] == ch {
                proof {
                    let ghost c = (x as int, y as int);
                    assert(cell_char(g, c) == ch);
                    assert(is_first_with(g, ch, c));
                    let f = first_with(g, ch);
                    assert(is_first_with(g, ch, f));
                    lemma_first_with_unique(g, ch, c, f);
                }
                return Some((x, y));
            }
            x += 1;
        }
        y += 1;
    }
    None
}

/// A fresh set of marks, one unmarked entry per maze cell.
fn fresh_marks(maze: &Maze) -> (v: Vec<Vec<bool>>)
    ensures
        marks_shaped(maze, v@),
        forall|c: (int, int)| in_grid(grid(maze), c) ==> !#[trigger] marked(v@, c),
        marks_closed(grid(maze), v@),
{
    proof {
        lemma_grid(maze);
    }
    let mut v: Vec<Vec<bool>> = Vec::new();
    let mut y: usize = 0;
    while y < maze.len()
        invariant
            0 <= y <= maze@.len(),
            v@.len() == y,
            forall|j: int| 0 <= j < y ==> #[trigger] v@[j]@.len() == maze@[j]@.len(),
            forall|j: int, i: int| 0 <= j < y && 0 <= i < v@[j]@.len() ==> !#[trigger] v@[j]@[i],
        decreases maze@.len() - y,
    {
        let n = maze[y].len();
        let mut row: Vec<bool> = Vec::new();
        let mut x: usize = 0;
        while x < n
            invariant
                0 <= x <= n,
                row@.len() == x,
                forall|i: int| 0 <= i < x ==> !#[trigger] row@[i],
            decreases n - x,
        {
            row.push(false);
            x += 1;
        }
        v.push(row);
        y += 1;
    }
    v
}

/// The cells reachable from the player's start (the first `'p'` in row-major
/// order), in breadth-first order; empty when the maze has no start.
pub fn reachable_cells(maze: &Maze) -> (cells: Vec<(usize, usize)>)
    ensures
        contains_char(grid(maze), 'p') ==> as_cells(cells@) == bfs_order(
            grid(maze),
            first_with(grid(maze), 'p'),
        ),
        contains_char(grid(maze), 'p') ==> is_bfs_order(grid(maze), first_with(grid(maze), 'p'), as_cells(cells@)),
        !contains_char(grid(maze), 'p') ==> cells@.len() == 0,
{
    match find_cell(maze, 'p') {
        None => Vec::new(),
        Some(start) => {
            let mut visited = fresh_marks(maze);
            let (cells, _depth) = bfs_walk(maze, start, &mut visited);
            proof {
                lemma_bfs_order_of(grid(maze), (start.0 as int, start.1 as int), as_cells(cells@));
            }
            cells
        },
    }
}

/// The grid explored from `c`: the grid itself when `c` is open; otherwise
/// the grid with `c` as floor, since exploring starts at `c` whatever it
/// holds and never comes back to it.
pub open spec fn opened_at(g: Seq<Seq<char>>, c: (int, int)) -> Seq<Seq<char>> {
    if open_cell(g, c) {
        g
    } else {
        set_cell(g, c, ' ')
    }
}

/// A copy of the maze with cell `(x, y)` replaced by floor.
fn with_floor_at(maze: &Maze, x: usize, y: usize) -> (copy: Maze)
    requires
        in_grid(grid(maze), (x as int, y as int)),
    ensures
        grid(&copy) == set_cell(grid(maze), (x as int, y as int), ' '),
{
    proof {
        lemma_grid(maze);
    }
    let mut copy: Maze = Vec::new();
    let mut r: usize = 0;
    while r < maze.len()
        invariant
            grid_facts(maze, grid(maze)),
            in_grid(grid(maze), (x as int, y as int)),
            0 <= r <= maze@.len(),
            copy@.len() == r,
            forall|k: int| 0 <= k < r ==> #[trigger] copy@[k]@ == set_cell(grid(maze), (x as int, y as int), ' ')[k],
        decreases maze@.len() - r,
    {
        let mut row: Vec<char> = Vec::new();
        let mut c: usize = 0;
        while c < maze[r].len()
            invariant
                grid_facts(maze, grid(maze)),
                0 <= r < maze@.len(),
                0 <= c <= maze@[r as int]@.len(),
                row@.len() == c,
                forall|k: int|
                    0 <= k < c ==> #[trigger] row@[k] == (if r == y && k == x {
                        ' '
                    } else {
                        maze@[r as int]@[k]
                    }),
            decreases maze@[r as int]@.len() - c,
        {
            if r == y && c == x {
                row.push(' ');
            } else {
                row.push(maze[r][c]);
            }
            c += 1;
        }
        proof {
            assert(row@ =~= set_cell(grid(maze), (x as int, y as int), ' ')[r as int]);
        }
        copy.push(row);
        r += 1;
    }
    proof {
        assert(grid(&copy) =~~= set_cell(grid(maze), (x as int, y as int), ' '));
    }
    copy
}

/// The cell farthest from `start`, which may be any cell of the maze: the
/// first one, in breadth-first order, among those taking the most steps to
/// reach through walkable cells.
fn farthest_cell(maze: &Maze, start: (usize, usize)) -> (far: (usize, usize))
    requires
        in_grid(grid(maze), (start.0 as int, start.1 as int)),
    ensures
        ({
            let st = (start.0 as int, start.1 as int);
            let o = opened_at(grid(maze), st);
            &&& (far.0 as int, far.1 as int) == farthest_of(bfs_order(o, st))
            &&& open_cell(o, (far.0 as int, far.1 as int))
            &&& connected(o, st, (far.0 as int, far.1 as int))
            &&& forall|c: (int, int)|
                connected(o, st, c) ==> #[trigger] distance(o, st, c) <= distance(o, st, (far.0 as int, far.1 as int))
            &&& region_size(o, st) >= 2 ==> far != start
        }),
{
    proof {
        lemma_grid(maze);
    }
    if is_walkable_cell(maze[start.1][start.0]) {
        farthest_from_open(maze, start)
    } else {
        let opened = with_floor_at(maze, start.0, start.1);
        farthest_from_open(&opened, start)
    }
}

/// The cell farthest from the open cell `start`.
fn farthest_from_open(maze: &Maze, start: (usize, usize)) -> (far: (usize, usize))
    requires
        open_cell(grid(maze), (start.0 as int, start.1 as int)),
    ensures
        (far.0 as int, far.1 as int) == farthest_of(bfs_order(grid(maze), (start.0 as int, start.1 as int))),
        open_cell(grid(maze), (far.0 as int, far.1 as int)),
        connected(grid(maze), (start.0 as int, start.1 as int), (far.0 as int, far.1 as int)),
        forall|c: (int, int)|
            connected(grid(maze), (start.0 as int, start.1 as int), c) ==> #[trigger] distance(
                grid(maze),
                (start.0 as int, start.1 as int),
                c,
            ) <= distance(grid(maze), (start.0 as int, start.1 as int), (far.0 as int, far.1 as int)),
        region_size(grid(maze), (start.0 as int, start.1 as int)) >= 2 ==> far != start,
{
    let mut visited = fresh_marks(maze);
    let (order, depth) = bfs_walk(maze, start, &mut visited);
    let ghost s = as_cells(order@);
    let mut best: usize = 0;
    let mut i: usize = 1;
    while i < order.len()
        invariant
            s == as_cells(order@),
            depth@.len() == order@.len(),
            order@.len() > 0,
            forall|k: int| 0 <= k < depth@.len() ==> depth@[k] == bfs_depth(s, k),
            0 <= best < i <= order@.len(),
            forall|k: int| 0 <= k < i ==> #[trigger] bfs_depth(s, k) <= bfs_depth(s, best as int),
            forall|k: int| 0 <= k < best ==> #[trigger] bfs_depth(s, k) < bfs_depth(s, best as int),
        decreases order@.len() - i,
    {
        if depth[i] > depth[best] {
            best = i;
        }
        i += 1;
    }
    proof {
        let st = (start.0 as int, start.1 as int);
        lemma_bfs_order_of(grid(maze), st, s);
        assert(is_first_deepest(s, best as int));
        let k = choose|k: int| is_first_deepest(s, k);
        lemma_first_deepest_unique(s, k, best as int);
        lemma_bfs_order_is_component(grid(maze), st, s, s[best as int]);
        assert forall|c: (int, int)| connected(grid(maze), st, c) implies #[trigger] distance(grid(maze), st, c)
            <= distance(grid(maze), st, s[best as int]) by {
            lemma_farthest_is_farthest(grid(maze), st, s, c);
        }
        lemma_bfs_order_size(grid(maze), st, s);
        if s.len() >= 2 {
            assert(has_discoverer(s, 1));
            assert(bfs_parent(s, 1) == 0);
            assert(bfs_depth(s, 0) == 0);
            assert(bfs_depth(s, 1) == 1);
            assert(best != 0);
            assert(s[best as int] != s[0]);
        }
    }
    order[best]
}

/// Some cell of the grid is open.
pub open spec fn has_open_cell(g: Seq<Seq<char>>) -> bool {
    exists|c: (int, int)| #[trigger] open_cell(g, c)
}

/// `c` is the first open cell, in row-major order, whose region is largest.
pub open spec fn is_first_largest_region(g: Seq<Seq<char>>, c: (int, int)) -> bool {
    &&& open_cell(g, c)
    &&& forall|d: (int, int)| #[trigger] open_cell(g, d) ==> region_size(g, d) <= region_size(g, c)
    &&& forall|d: (int, int)|
        #[trigger] open_cell(g, d) && row_major_before(d, c) ==> region_size(g, d) < region_size(g, c)
}

/// The first open cell whose region is largest.
pub open spec fn first_largest_region_cell(g: Seq<Seq<char>>) -> (int, int) {
    choose|c: (int, int)| is_first_largest_region(g, c)
}

/// Where a level drawn as art gets its start: the cell farthest from the
/// first cell of its largest region.
pub open spec fn art_start(g: Seq<Seq<char>>) -> (int, int) {
    farthest_of(bfs_order(g, first_largest_region_cell(g)))
}

/// Where a level drawn as art gets its goal: the cell farthest from its start.
pub open spec fn art_goal(g: Seq<Seq<char>>) -> (int, int) {
    farthest_of(bfs_order(g, art_start(g)))
}

/// The grid with its start and goal marked; unchanged without open cells.
pub open spec fn with_start_and_goal(g: Seq<Seq<char>>) -> Seq<Seq<char>> {
    if has_open_cell(g) {
        set_cell(set_cell(g, art_start(g), 'p'), art_goal(g), 'g')
    } else {
        g
    }
}

/// There is only one first largest region cell.
pub proof fn lemma_first_largest_region_unique(g: Seq<Seq<char>>, a: (int, int), b: (int, int))
    requires
        is_first_largest_region(g, a),
        is_first_largest_region(g, b),
    ensures
        a == b,
{
    assert(open_cell(g, a) && open_cell(g, b));
    if row_major_before(a, b) {
        assert(region_size(g, a) < region_size(g, b));
    } else if row_major_before(b, a) {
        assert(region_size(g, b) < region_size(g, a));
    }
}

/// A breadth-first order lists the region of its start, each cell once.
pub proof fn lemma_bfs_order_size(g: Seq<Seq<char>>, c: (int, int), s: Seq<(int, int)>)
    requires
        is_bfs_order(g, c, s),
    ensures
        s.len() == region_size(g, c),
        forall|i: int| 0 <= i < s.len() ==> connected(g, c, #[trigger] s[i]),
{
    assert forall|d: (int, int)| s.to_set().contains(d) <==> region(g, c).contains(d) by {
        lemma_bfs_order_is_component(g, c, s, d);
    }
    assert(s.to_set() =~= region(g, c));
    s.unique_seq_to_set();
    assert forall|i: int| 0 <= i < s.len() implies connected(g, c, #[trigger] s[i]) by {
        lemma_bfs_order_is_component(g, c, s, s[i]);
    }
}

/// Marks the start (`'p'`) and goal (`'g'`) of a level drawn as art: the
/// start is the cell farthest, in steps, from the first cell of the largest
/// open region, the goal the cell farthest from the start. When that region
/// has two cells or more, start and goal are different cells and both marks
/// stay.
pub fn mark_art_start_and_goal(maze: &mut Maze)
    ensures
        grid(final(maze)) == with_start_and_goal(grid(old(maze))),
        has_open_cell(grid(old(maze))) ==> {
            let g = grid(old(maze));
            &&& is_first_largest_region(g, first_largest_region_cell(g))
            &&& connected(g, first_largest_region_cell(g), art_start(g))
            &&& connected(g, art_start(g), art_goal(g))
            &&& forall|c: (int, int)|
                connected(g, first_largest_region_cell(g), c) ==> #[trigger] distance(
                    g,
                    first_largest_region_cell(g),
                    c,
                ) <= distance(g, first_largest_region_cell(g), art_start(g))
            &&& forall|c: (int, int)|
                connected(g, art_start(g), c) ==> #[trigger] distance(g, art_start(g), c) <= distance(
                    g,
                    art_start(g),
                    art_goal(g),
                )
            &&& cell_char(grid(final(maze)), art_goal(g)) == 'g'
            &&& region_size(g, first_largest_region_cell(g)) >= 2 ==> art_start(g) != art_goal(g) && cell_char(
                grid(final(maze)),
                art_start(g),
            ) == 'p'
        },
{
    let ghost g = grid(maze);
    proof {
        lemma_grid(maze);
    }
    let mut visited = fresh_marks(maze);
    let mut best: (usize, usize) = (0, 0);
    let mut best_size: usize = 0;
    let mut y: usize = 0;
    while y < maze.len()
        invariant
            g == grid(maze),
            grid_facts(maze, g),
            0 <= y <= maze@.len(),
            marks_shaped(maze, visited@),
            marks_closed(g, visited@),
            forall|c: (int, int)|
                #![trigger marked(visited@, c)]
                in_grid(g, c) && marked(visited@, c) ==> open_cell(g, c) && region_size(g, c) <= best_size,
            best_size == 0 ==> forall|c: (int, int)| in_grid(g, c) ==> !#[trigger] marked(visited@, c),
            best_size == 0 ==> forall|c: (int, int)| #[trigger] open_cell(g, c) ==> c.1 >= y,
            best_size > 0 ==> open_cell(g, (best.0 as int, best.1 as int)) && region_size(
                g,
                (best.0 as int, best.1 as int),
            ) == best_size && best.1 < y,
            forall|c: (int, int)|
                #[trigger] open_cell(g, c) && c.1 < y ==> region_size(g, c) <= best_size,
            forall|c: (int, int)|
                #[trigger] open_cell(g, c) && c.1 < y && row_major_before(c, (best.0 as int, best.1 as int))
                    ==> region_size(g, c) < best_size,
        decreases maze@.len() - y,
    {
        let n = maze[y].len();
        let mut x: usize = 0;
        while x < n
            invariant
                g == grid(maze),
                grid_facts(maze, g),
                0 <= y < maze@.len(),
                n == maze@[y as int]@.len(),
                0 <= x <= n,
                marks_shaped(maze, visited@),
                marks_closed(g, visited@),
                forall|c: (int, int)|
                    #![trigger marked(visited@, c)]
                    in_grid(g, c) && marked(visited@, c) ==> open_cell(g, c) && region_size(g, c)
                        <= best_size,
                best_size == 0 ==> forall|c: (int, int)| in_grid(g, c) ==> !#[trigger] marked(visited@, c),
                best_size == 0 ==> forall|c: (int, int)|
                    #[trigger] open_cell(g, c) ==> !row_major_before(c, (x as int, y as int)),
                best_size > 0 ==> open_cell(g, (best.0 as int, best.1 as int)) && region_size(
                    g,
                    (best.0 as int, best.1 as int),
                ) == best_size && row_major_before((best.0 as int, best.1 as int), (x as int, y as int)),
                forall|c: (int, int)|
                    #[trigger] open_cell(g, c) && row_major_before(c, (x as int, y as int)) ==> region_size(g, c)
                        <= best_size,
                forall|c: (int, int)|
                    #[trigger] open_cell(g, c) && row_major_before(c, (x as int, y as int))
                        && row_major_before(c, (best.0 as int, best.1 as int)) ==> region_size(g, c)
                        < best_size,
            decreases n - x,
        {
            let ghost c = (x as int, y as int);
            if !visited[y][x] && is_walkable_cell(maze[y][x]) {
                let ghost v_before = visited@;
                let (component, _depth) = bfs_walk(maze, (x, y), &mut visited);
                proof {
                    lemma_bfs_order_size(g, c, as_cells(component@));
                    let s = as_cells(component@);
                    assert forall|e: (int, int)|
                        in_grid(g, e) && marked(visited@, e) implies open_cell(g, e) && region_size(g, e)
                            <= (if component@.len() > best_size { component@.len() as nat } else { best_size as nat }) by {
                        if !marked(v_before, e) {
                            assert(s.contains(e));
                            let i = choose|i: int| 0 <= i < s.len() && s[i] == e;
                            assert(connected(g, c, s[i]));
                            lemma_same_region(g, c, e);
                        }
                    }
                    assert(marks_closed(g, visited@)) by {
                        assert forall|e: (int, int), d: int|
                            #![trigger marked(visited@, e), step(e, d)]
                            in_grid(g, e) && marked(visited@, e) && 0 <= d < 4 && open_cell(g, step(e, d))
                                implies marked(visited@, step(e, d)) by {
                            if marked(v_before, e) {
                                assert(marked(v_before, step(e, d)));
                            } else {
                                assert(s.contains(e));
                                let i = choose|i: int| 0 <= i < s.len() && s[i] == e;
                                assert(closed_under_steps(g, s));
                                assert(step(s[i], d) == step(e, d));
                                assert(s.contains(step(s[i], d)));
                            }
                        }
                    }
                }
                if component.len() > best_size {
                    best = (x, y);
                    best_size = component.len();
                }
            } else {
                proof {
                    if open_cell(g, c) {
                        assert(marked(visited@, c));
                    }
                }
            }
            x += 1;
        }
        y += 1;
    }
    if best_size > 0 {
        let ghost bc = (best.0 as int, best.1 as int);
        proof {
            assert(is_first_largest_region(g, bc));
            let f = first_largest_region_cell(g);
            lemma_first_largest_region_unique(g, f, bc);
            assert(has_open_cell(g));
        }
        let start = farthest_cell(maze, best);
        let goal = farthest_cell(maze, start);
        let ghost sc = (start.0 as int, start.1 as int);
        let ghost gc = (goal.0 as int, goal.1 as int);
        proof {
            lemma_same_region(g, bc, sc);
        }
        maze[start.1][start.0] = 'p';
        proof {
            assert(grid(maze) =~~= set_cell(g, sc, 'p'));
            lemma_grid(maze);
        }
        maze[goal.1][goal.0] = 'g';
        proof {
            assert(grid(maze) =~~= set_cell(set_cell(g, sc, 'p'), gc, 'g'));
        }
    } else {
        proof {
            assert(!has_open_cell(g)) by {
                if has_open_cell(g) {
                    let c = choose|c: (int, int)| #[trigger] open_cell(g, c);
                    assert(c.1 >= maze@.len());
                }
            }
        }
    }
}

/// The direction (right, left, down, up) of the first open neighbour of `c`.
pub open spec fn first_open_dir(g: Seq<Seq<char>>, c: (int, int)) -> Option<int> {
    if open_cell(g, step(c, 0)) {
        Some(0)
    } else if open_cell(g, step(c, 1)) {
        Some(1)
    } else if open_cell(g, step(c, 2)) {
        Some(2)
    } else if open_cell(g, step(c, 3)) {
        Some(3)
    } else {
        None
    }
}

/// The first position at or after `x` holding `ch`; the row length if none.
pub open spec fn first_index_from(r: Seq<char>, ch: char, x: int) -> int
    decreases r.len() - x,
{
    if x < 0 || x >= r.len() {
        r.len() as int
    } else if r[x] == ch {
        x
    } else {
        first_index_from(r, ch, x + 1)
    }
}

/// The direction the player first faces, searching rows from `y` on: in the
/// first row whose first `'p'` has an open neighbour, the direction of its
/// first open neighbour.
pub open spec fn start_direction_from(g: Seq<Seq<char>>, y: int) -> Option<int>
    decreases g.len() - y,
{
    if y < 0 || y >= g.len() {
        None
    } else {
        let x = first_index_from(g[y], 'p', 0);
        if x < g[y].len() && first_open_dir(g, (x, y)) is Some {
            first_open_dir(g, (x, y))
        } else {
            start_direction_from(g, y + 1)
        }
    }
}

/// The direction the player starts facing: right (0), left (1), down (2) or
/// up (3), toward the first open neighbour of the start; `None` when no start
/// has an open neighbour.
pub fn player_start_direction(maze: &Maze) -> (d: Option<usize>)
    ensures
        match d {
            Some(d) => start_direction_from(grid(maze), 0) == Some(d as int),
            None => start_direction_from(grid(maze), 0) is None,
        },
{
    let ghost g = grid(maze);
    proof {
        lemma_grid(maze);
    }
    let mut y: usize = 0;
    while y < maze.len()
        invariant
            g == grid(maze),
            grid_facts(maze, g),
            0 <= y <= maze@.len(),
            start_direction_from(g, 0) == start_direction_from(g, y as int),
        decreases maze@.len() - y,
    {
        let row = &maze[y];
        let mut x: usize = 0;
        while x < row.len() && row[x] != 'p'
            invariant
                g == grid(maze),
                grid_facts(maze, g),
                y < maze@.len(),
                row@ == maze@[y as int]@,
                0 <= x <= row@.len(),
                first_index_from(g[y as int], 'p', 0) == first_index_from(g[y as int], 'p', x as int),
            decreases row@.len() - x,
        {
            x += 1;
        }
        if x < row.len() {
            assert(g[y as int][x as int] == 'p');
            assert(first_index_from(g[y as int], 'p', x as int) == x as int);
            let mut d: usize = 0;
            while d < 4
                invariant
                    g == grid(maze),
                    grid_facts(maze, g),
                    y < maze@.len(),
                    x < maze@[y as int]@.len(),
                    first_index_from(g[y as int], 'p', 0) == x as int,
                    start_direction_from(g, 0) == start_direction_from(g, y as int),
                    0 <= d <= 4,
                    forall|e: int| 0 <= e < d ==> !open_cell(g, #[trigger] step((x as int, y as int), e)),
                decreases 4 - d,
            {
                match crate::bfs::neighbor(maze, x, y, d) {
                    Some((nx, ny)) => {
                        if is_walkable_cell(maze[ny][nx]) {
                            proof {
                                let c = (x as int, y as int);
                                assert(open_cell(g, step(c, d as int)));
                                assert(first_open_dir(g, c) == Some(d as int));
                                assert(start_direction_from(g, y as int) == Some(d as int));
                            }
                            return Some(d);
                        }
                    },
                    None => {},
                }
                d += 1;
            }
        }
        y += 1;
    }
    None
}

/// `path` names a level drawn as Braille art: it lies under `maps/`.
pub open spec fn is_art_path(path: Seq<char>) -> bool {
    path.len() >= 5 && path.subrange(0, 5) == seq!['m', 'a', 'p', 's', '/']
}

/// Whether a level file is drawn as Braille art.
pub fn is_art_map_path(path: &str) -> (art: bool)
    ensures
        art == is_art_path(path@),
{
    let n = path.unicode_len();
    if n < 5 {
        return false;
    }
    let a = path.get_char(0);
    let b = path.get_char(1);
    let c = path.get_char(2);
    let d = path.get_char(3);
    let e = path.get_char(4);
    let art = a == 'm' && b == 'a' && c == 'p' && d == 's' && e == '/';
    proof {
        if art {
            assert(path@.subrange(0, 5) =~= seq!['m', 'a', 'p', 's', '/']);
        } else {
            if path@.subrange(0, 5) == seq!['m', 'a', 'p', 's', '/'] {
                assert(path@.subrange(0, 5)[0] == path@[0]);
                assert(path@.subrange(0, 5)[1] == path@[1]);
                assert(path@.subrange(0, 5)[2] == path@[2]);
                assert(path@.subrange(0, 5)[3] == path@[3]);
                assert(path@.subrange(0, 5)[4] == path@[4]);
            }
        }
    }
    art
}

/// The bit of a Braille character's dot in column `x` and row `y` of its
/// two-by-four dot grid.
pub open spec fn braille_bit(x: int, y: int) -> u32 {
    if x == 0 {
        if y == 0 {
            0
        } else if y == 1 {
            1
        } else if y == 2 {
            2
        } else {
            6
        }
    } else {
        if y == 0 {
            3
        } else if y == 1 {
            4
        } else if y == 2 {
            5
        } else {
            7
        }
    }
}

/// The dot pattern of a character: its offset from the blank Braille
/// character U+2800, or nothing below it.
pub open spec fn braille_dots(ch: char) -> u32 {
    if (ch as u32) >= 0x2800 {
        ((ch as u32) - 0x2800) as u32
    } else {
        0
    }
}

/// The dot in column `x` and row `y` of Braille character `ch` is raised.
pub open spec fn dot_raised(ch: char, x: int, y: int) -> bool {
    braille_dots(ch) & (1u32 << braille_bit(x, y)) != 0
}

/// The length of the longest row.
pub open spec fn max_row_len(src: Seq<Seq<char>>) -> nat
    decreases src.len(),
{
    if src.len() == 0 {
        0
    } else {
        let m = max_row_len(src.drop_last());
        if src.last().len() > m {
            src.last().len()
        } else {
            m
        }
    }
}

/// The width of a maze drawn as Braille art: two cells per character of
/// the longest line (two for no lines at all).
pub open spec fn art_width(src: Seq<Seq<char>>) -> nat {
    if src.len() == 0 {
        2
    } else {
        2 * max_row_len(src)
    }
}

/// Cell `(col, r)` of the maze drawn by Braille art: each character gives
/// a two-by-four block of cells, open (`' '`) where its dot is raised and wall
/// (`'+'`) elsewhere, and past the end of a line.
pub open spec fn art_cell(src: Seq<Seq<char>>, r: int, col: int) -> char {
    let line = src[r / 4];
    if col / 2 < line.len() && dot_raised(line[col / 2], col % 2, r % 4) {
        ' '
    } else {
        '+'
    }
}

/// The maze drawn by lines of Braille art.
pub open spec fn art_grid(src: Seq<Seq<char>>) -> Seq<Seq<char>> {
    Seq::new(4 * src.len(), |r: int| Seq::new(art_width(src), |col: int| art_cell(src, r, col)))
}

/// Cell `(x, y)` of the block that character `c` of line `i` becomes in the
/// maze drawn by Braille art.
pub open spec fn block_cell(src: Seq<Seq<char>>, i: int, c: int, x: int, y: int) -> char {
    art_grid(src)[4 * i + y][2 * c + x]
}

proof fn lemma_block_cell(src: Seq<Seq<char>>, i: int, c: int, x: int, y: int)
    requires
        0 <= i < src.len(),
        0 <= c < src[i].len(),
        0 <= x < 2,
        0 <= y < 4,
    ensures
        block_cell(src, i, c, x, y) == (if dot_raised(src[i][c], x, y) {
            ' '
        } else {
            '+'
        }),
{
    lemma_max_row_len(src);
    assert(src[i].len() <= max_row_len(src));
    assert(2 * c + x < art_width(src));
    assert((4 * i + y) / 4 == i && (4 * i + y) % 4 == y);
    assert((2 * c + x) / 2 == c && (2 * c + x) % 2 == x);
}

/// Each Braille character of a line becomes a two-by-four block of cells,
/// open exactly where the standard Braille dot is raised: in the left column
/// dots 1, 2, 3 and 7 from the top (bits 0, 1, 2 and 6 of the character's
/// offset from U+2800), in the right column dots 4, 5, 6 and 8 (bits 3, 4, 5
/// and 7); characters below U+2800 are all wall.
pub proof fn lemma_braille_blocks(src: Seq<Seq<char>>, i: int, c: int)
    requires
        0 <= i < src.len(),
        0 <= c < src[i].len(),
    ensures
        ({
            let d = src[i][c] as u32 - 0x2800;
            &&& d >= 0 ==> {
                &&& block_cell(src, i, c, 0, 0) == ' ' <==> d % 2 == 1
                &&& block_cell(src, i, c, 0, 1) == ' ' <==> (d / 2) % 2 == 1
                &&& block_cell(src, i, c, 0, 2) == ' ' <==> (d / 4) % 2 == 1
                &&& block_cell(src, i, c, 0, 3) == ' ' <==> (d / 64) % 2 == 1
                &&& block_cell(src, i, c, 1, 0) == ' ' <==> (d / 8) % 2 == 1
                &&& block_cell(src, i, c, 1, 1) == ' ' <==> (d / 16) % 2 == 1
                &&& block_cell(src, i, c, 1, 2) == ' ' <==> (d / 32) % 2 == 1
                &&& block_cell(src, i, c, 1, 3) == ' ' <==> (d / 128) % 2 == 1
            }
            &&& d < 0 ==> forall|x: int, y: int|
                0 <= x < 2 && 0 <= y < 4 ==> #[trigger] block_cell(src, i, c, x, y) == '+'
            &&& forall|x: int, y: int|
                0 <= x < 2 && 0 <= y < 4 ==> #[trigger] block_cell(src, i, c, x, y) == ' ' || block_cell(
                    src,
                    i,
                    c,
                    x,
                    y,
                ) == '+'
        }),
{
    let ch = src[i][c];
    let u = braille_dots(ch);
    assert forall|x: int, y: int| 0 <= x < 2 && 0 <= y < 4 implies #[trigger] block_cell(src, i, c, x, y) == (
    if dot_raised(ch, x, y) {
        ' '
    } else {
        '+'
    }) by {
        lemma_block_cell(src, i, c, x, y);
    }
    assert(block_cell(src, i, c, 0, 0) == (if dot_raised(ch, 0, 0) { ' ' } else { '+' }));
    assert(block_cell(src, i, c, 0, 1) == (if dot_raised(ch, 0, 1) { ' ' } else { '+' }));
    assert(block_cell(src, i, c, 0, 2) == (if dot_raised(ch, 0, 2) { ' ' } else { '+' }));
    assert(block_cell(src, i, c, 0, 3) == (if dot_raised(ch, 0, 3) { ' ' } else { '+' }));
    assert(block_cell(src, i, c, 1, 0) == (if dot_raised(ch, 1, 0) { ' ' } else { '+' }));
    assert(block_cell(src, i, c, 1, 1) == (if dot_raised(ch, 1, 1) { ' ' } else { '+' }));
    assert(block_cell(src, i, c, 1, 2) == (if dot_raised(ch, 1, 2) { ' ' } else { '+' }));
    assert(block_cell(src, i, c, 1, 3) == (if dot_raised(ch, 1, 3) { ' ' } else { '+' }));
    if ch as u32 >= 0x2800 {
        assert(u == ch as u32 - 0x2800);
    } else {
        assert(u == 0);
        assert forall|b: u32| b < 8 implies #[trigger] (0u32 & (1u32 << b)) == 0 by {
            assert(b < 8 ==> 0u32 & (1u32 << b) == 0) by (bit_vector);
        }
    }
    assert(u & (1u32 << 0u32) != 0 <==> u % 2 == 1) by (bit_vector);
    assert(u & (1u32 << 1u32) != 0 <==> (u / 2) % 2 == 1) by (bit_vector);
    assert(u & (1u32 << 2u32) != 0 <==> (u / 4) % 2 == 1) by (bit_vector);
    assert(u & (1u32 << 6u32) != 0 <==> (u / 64) % 2 == 1) by (bit_vector);
    assert(u & (1u32 << 3u32) != 0 <==> (u / 8) % 2 == 1) by (bit_vector);
    assert(u & (1u32 << 4u32) != 0 <==> (u / 16) % 2 == 1) by (bit_vector);
    assert(u & (1u32 << 5u32) != 0 <==> (u / 32) % 2 == 1) by (bit_vector);
    assert(u & (1u32 << 7u32) != 0 <==> (u / 128) % 2 == 1) by (bit_vector);
}

pub proof fn lemma_max_row_len(src: Seq<Seq<char>>)
    ensures
        forall|i: int| 0 <= i < src.len() ==> #[trigger] src[i].len() <= max_row_len(src),
        src.len() > 0 ==> exists|i: int| 0 <= i < src.len() && #[trigger] src[i].len() == max_row_len(src),
    decreases src.len(),
{
    if src.len() > 0 {
        lemma_max_row_len(src.drop_last());
        assert forall|i: int| 0 <= i < src.len() implies #[trigger] src[i].len() <= max_row_len(src) by {
            if i < src.len() - 1 {
                assert(src[i] == src.drop_last()[i]);
            }
        }
        if src.last().len() > max_row_len(src.drop_last()) {
            assert(src[src.len() - 1].len() == max_row_len(src));
        } else if src.len() > 1 {
            let i = choose|i: int| 0 <= i < src.drop_last().len() && #[trigger] src.drop_last()[i].len() == max_row_len(src.drop_last());
            assert(src[i] == src.drop_last()[i]);
        } else {
            assert(src.drop_last().len() == 0);
            assert(src[0].len() == max_row_len(src));
        }
    }
}

/// The character of one cell of a maze drawn by a line of Braille art.
fn art_char(line: &Vec<char>, r: usize, col: usize) -> (ch: char)
    requires
        r < 4,
    ensures
        ({
            let src = seq![line@];
            ch == art_cell(src, r as int, col as int)
        }),
{
    let c = col / 2;
    let x = col % 2;
    let ghost src = seq![line@];
    assert(src[r as int / 4] == line@);
    if c < line.len() {
        let code = line[c] as u32;
        let dots: u32 = if code >= 0x2800 {
            code - 0x2800
        } else {
            0
        };
        let bit: u32 = if x == 0 {
            if r == 0 {
                0
            } else if r == 1 {
                1
            } else if r == 2 {
                2
            } else {
                6
            }
        } else {
            if r == 0 {
                3
            } else if r == 1 {
                4
            } else if r == 2 {
                5
            } else {
                7
            }
        };
        assert(bit == braille_bit(col as int % 2, r as int % 4));
        assert(dots == braille_dots(line@[c as int]));
        if dots & (1u32 << bit) != 0 {
            ' '
        } else {
            '+'
        }
    } else {
        '+'
    }
}

/// Decodes lines of Braille art into a maze.
pub fn decode_art(source: &Vec<Vec<char>>) -> (maze: Maze)
    requires
        2 * max_row_len(source.deep_view()) <= usize::MAX,
    ensures
        grid(&maze) == art_grid(source.deep_view()),
{
    let ghost src = source.deep_view();
    let mut longest: usize = 0;
    let mut i: usize = 0;
    proof {
        lemma_max_row_len(src);
    }
    while i < source.len()
        invariant
            src == source.deep_view(),
            2 * max_row_len(src) <= usize::MAX,
            0 <= i <= source@.len(),
            forall|k: int| 0 <= k < i ==> #[trigger] source@[k]@.len() <= longest,
            longest <= max_row_len(src),
            i == 0 ==> longest == 0,
            i > 0 ==> exists|k: int| 0 <= k < i && #[trigger] source@[k]@.len() == longest,
            forall|k: int| 0 <= k < src.len() ==> #[trigger] src[k].len() <= max_row_len(src),
            src.len() > 0 ==> exists|k: int| 0 <= k < src.len() && #[trigger] src[k].len() == max_row_len(src),
        decreases source@.len() - i,
    {
        assert(src[i as int].len() == source@[i as int]@.len());
        if source[i].len() > longest {
            longest = source[i].len();
        }
        i += 1;
    }
    proof {
        if src.len() > 0 {
            let k = choose|k: int| 0 <= k < src.len() && #[trigger] src[k].len() == max_row_len(src);
            assert(src[k].len() == source@[k]@.len());
            assert(longest == max_row_len(src));
        }
    }
    let width: usize = if source.len() == 0 {
        2
    } else {
        longest * 2
    };
    assert(width == art_width(src));
    let mut maze: Maze = Vec::new();
    let mut line_index: usize = 0;
    while line_index < source.len()
        invariant
            src == source.deep_view(),
            width == art_width(src),
            0 <= line_index <= source@.len(),
            maze@.len() == 4 * line_index,
            forall|r: int| 0 <= r < maze@.len() ==> #[trigger] maze@[r]@.len() == width,
            forall|r: int, col: int|
                0 <= r < maze@.len() && 0 <= col < width ==> #[trigger] maze@[r]@[col] == art_cell(src, r, col),
        decreases source@.len() - line_index,
    {
        let line = &source[line_index];
        let mut dy: usize = 0;
        while dy < 4
            invariant
                src == source.deep_view(),
                width == art_width(src),
                0 <= line_index < source@.len(),
                line@ == source@[line_index as int]@,
                0 <= dy <= 4,
                maze@.len() == 4 * line_index + dy,
                forall|r: int| 0 <= r < maze@.len() ==> #[trigger] maze@[r]@.len() == width,
                forall|r: int, col: int|
                    0 <= r < maze@.len() && 0 <= col < width ==> #[trigger] maze@[r]@[col] == art_cell(src, r, col),
            decreases 4 - dy,
        {
            let mut row: Vec<char> = Vec::new();
            let mut col: usize = 0;
            let ghost r = 4 * line_index + dy;
            assert(src[r / 4] == line@) by {
                assert(r / 4 == line_index as int);
            }
            while col < width
                invariant
                    src == source.deep_view(),
                    0 <= col <= width,
                    dy < 4,
                    r == 4 * line_index + dy,
                    src[r / 4] == line@,
                    row@.len() == col,
                    forall|k: int| 0 <= k < col ==> #[trigger] row@[k] == art_cell(src, r, k),
                decreases width - col,
            {
                let ch = art_char(line, dy, col);
                proof {
                    assert(r % 4 == dy as int);
                    let one = seq![line@];
                    assert(one[dy as int / 4] == line@);
                    assert(art_cell(one, dy as int, col as int) == art_cell(src, r, col as int));
                }
                row.push(ch);
                col += 1;
            }
            maze.push(row);
            dy += 1;
        }
        line_index += 1;
    }
    proof {
        assert(grid(&maze) =~~= art_grid(src));
    }
    maze
}

/// The maze of a level file, from the lines it holds: a file under `maps/`
/// is Braille art, decoded and given a start and a goal; any other file is
/// the maze itself.
pub fn maze_from_lines(path: &str, source: Vec<Vec<char>>) -> (maze: Maze)
    requires
        is_art_path(path@) ==> 2 * max_row_len(source.deep_view()) <= usize::MAX,
    ensures
        is_art_path(path@) ==> grid(&maze) == with_start_and_goal(art_grid(source.deep_view())),
        !is_art_path(path@) ==> maze == source,
{
    if is_art_map_path(path) {
        let mut maze = decode_art(&source);
        mark_art_start_and_goal(&mut maze);
        maze
    } else {
        source
    }
}

} // verus!
