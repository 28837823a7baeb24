//! What a ray meets as it walks the grid from cell to cell.
use vstd::prelude::*;
use crate::grid::{cell_char, grid, in_grid, lemma_grid, Maze};

verus! {

/// What a ray finds in the cell it enters.
#[derive(Clone, Copy, PartialEq, Eq, Debug, Structural)]
pub enum RayStep {
    /// The cell is outside the maze: the ray stops there.
    Outside,
    /// The cell stops the ray: a wall, the goal, or anything but floor and
    /// the start.
    Blocked(char),
    /// The ray goes on through floor or the start.
    Through,
}

/// What a ray finds in cell `(x, y)`.
pub open spec fn ray_step_at(g: Seq<Seq<char>>, x: int, y: int) -> RayStep {
    if !in_grid(g, (x, y)) {
        RayStep::Outside
    } else if cell_char(g, (x, y)) != ' ' && cell_char(g, (x, y)) != 'p' {
        RayStep::Blocked(cell_char(g, (x, y)))
    } else {
        RayStep::Through
    }
}

/// What a ray finds in cell `(x, y)` (which may lie outside the maze).
pub fn probe_cell(maze: &Maze, x: i32, y: i32) -> (r: RayStep)
    ensures
        r == ray_step_at(grid(maze), x as int, y as int),
{
    proof {
        lemma_grid(maze);
    }
    if x < 0 || y < 0 {
        return RayStep::Outside;
    }
    let (column, row) = (x as usize, y as usize);
    if row >= maze.len() || column >= maze[row].len() {
        return RayStep::Outside;
    }
    let impact = maze[row][column];
    if impact != ' ' && impact != 'p' {
        RayStep::Blocked(impact)
    } else {
        RayStep::Through
    }
}

} // verus!
