//! The top-down views of the maze: the full-screen map and the minimap.
use vstd::prelude::*;
use crate::color::Color;
use crate::draw::{draw_rectangle, draw_square, in_rect, rect_cover, square_cover};
use crate::framebuffer::{
    lemma_paint_nothing, lemma_paint_same_cover, lemma_paint_with_nothing, lemma_paint_with_point,
    lemma_paint_with_same_cover, paint_with, painted, FrameModel, Framebuffer,
};
use crate::grid::{grid, grid_facts, lemma_grid, walkable, Maze};
use crate::level::{lemma_max_row_len, max_row_len};
use crate::textures::{cell_texture_key, clamp_to, TextureManager, TextureModel};

verus! {

/// The number of columns the maze is drawn with: its longest row, or one
/// for an empty maze.
pub open spec fn map_columns(g: Seq<Seq<char>>) -> int {
    if g.len() == 0 {
        1
    } else {
        max_row_len(g) as int
    }
}

/// The number of rows the maze is drawn with: at least one.
pub open spec fn map_rows(g: Seq<Seq<char>>) -> int {
    if g.len() == 0 {
        1
    } else {
        g.len() as int
    }
}

/// The length of the longest row of the maze.
pub fn longest_row(maze: &Maze) -> (n: usize)
    ensures
        n == max_row_len(grid(maze)),
{
    proof {
        lemma_grid(maze);
    }
    let ghost g = grid(maze);
    let mut n: usize = 0;
    let mut i: usize = 0;
    while i < maze.len()
        invariant
            g == grid(maze),
            grid_facts(maze, g),
            0 <= i <= maze@.len(),
            n == max_row_len(g.take(i as int)),
        decreases maze@.len() - i,
    {
        proof {
            assert(g.take(i + 1).drop_last() =~= g.take(i as int));
            assert(g.take(i + 1).last() == g[i as int]);
        }
        if maze[i].len() > n {
            n = maze[i].len();
        }
        i += 1;
    }
    proof {
        assert(g.take(i as int) =~= g);
    }
    n
}

/// The colour of an open cell on the map: floor black, start magenta, goal
/// red.
pub open spec fn open_cell_color(ch: char) -> Color {
    if ch == ' ' {
        Color::black()
    } else if ch == 'p' {
        Color::magenta()
    } else {
        Color::red()
    }
}

/// The colour of a pixel of a textured cell spanning `[xs, xe)` by
/// `[ys, ye)`: the texture stretched over the cell.
pub open spec fn texel_fn(t: TextureModel, xs: int, ys: int, xe: int, ye: int) -> spec_fn(int, int) -> Color {
    |x: int, y: int|
        t.rows[clamp_to((y - ys) * t.height / (ye - ys), t.height as int)][clamp_to(
            (x - xs) * t.width / (xe - xs),
            t.width as int,
        )]
}

/// A maze cell `ch` at `(cx, cy)` drawn over the pixels `[xs, xe)` by
/// `[ys, ye)`: open cells in their colour, other cells with their texture
/// stretched over them, or in the colour last drawn with when they have no
/// texture. An empty span draws nothing.
pub open spec fn cell_drawn(
    m: FrameModel,
    tex: TextureManager,
    ch: char,
    cx: int,
    cy: int,
    xs: int,
    ys: int,
    xe: int,
    ye: int,
) -> FrameModel {
    if !(xs < xe && ys < ye) {
        m
    } else if walkable(ch) {
        painted(m, rect_cover(xs, ys, xe - xs, ye - ys), open_cell_color(ch))
    } else {
        match tex.resolved(cell_texture_key(ch, cx, cy)) {
            Some(t) => stretched(m, t, xs, ys, xe, ye),
            None => painted(m, rect_cover(xs, ys, xe - xs, ye - ys), m.current),
        }
    }
}

proof fn lemma_scaled_below(a: int, t: int, b: int)
    requires
        0 <= a < b,
        0 <= t,
    ensures
        0 <= a * t / b <= t,
{
    assert(0 <= a * t / b <= t) by (nonlinear_arith)
        requires
            0 <= a < b,
            0 <= t,
    ;
}

/// Draws maze cell `ch` at `(cell_x, cell_y)` over the pixels
/// `[x_start, x_end)` by `[y_start, y_end)`.
fn draw_cell(
    fb: &mut Framebuffer,
    textures: &TextureManager,
    x_start: u32,
    y_start: u32,
    x_end: u32,
    y_end: u32,
    cell_x: usize,
    cell_y: usize,
    cell: char,
)
    requires
        old(fb).inv(),
    ensures
        final(fb).inv(),
        final(fb)@ == cell_drawn(
            old(fb)@,
            *textures,
            cell,
            cell_x as int,
            cell_y as int,
            x_start as int,
            y_start as int,
            x_end as int,
            y_end as int,
        ),
{
    if !(x_start < x_end && y_start < y_end) {
        return;
    }
    if crate::level::is_walkable_cell(cell) {
        let color = if cell == ' ' {
            Color::black()
        } else if cell == 'p' {
            Color::magenta()
        } else {
            Color::red()
        };
        draw_rectangle(fb, x_start, y_start, x_end - x_start, y_end - y_start, color);
        return;
    }
    match textures.cell_dimensions(cell, cell_x, cell_y) {
        None => {
            let color = fb.current_color();
            draw_rectangle(fb, x_start, y_start, x_end - x_start, y_end - y_start, color);
        },
        Some(_) => {
            let key = crate::textures::texture_key(cell, cell_x, cell_y);
            draw_stretched(fb, textures, key, x_start, y_start, x_end, y_end);
        },
    }
}

/// The framebuffer with texture `t` stretched over the pixels `[xs, xe)`
/// by `[ys, ye)`; unchanged for an empty span.
pub open spec fn stretched(m: FrameModel, t: TextureModel, xs: int, ys: int, xe: int, ye: int) -> FrameModel {
    if !(xs < xe && ys < ye) {
        m
    } else {
        FrameModel {
            rows: paint_with(m.rows, rect_cover(xs, ys, xe - xs, ye - ys), texel_fn(t, xs, ys, xe, ye)),
            current: texel_fn(t, xs, ys, xe, ye)(xe - 1, ye - 1),
            ..m
        }
    }
}

/// Draws the texture used for `key` stretched over the pixels
/// `[x_start, x_end)` by `[y_start, y_end)`, pixel by pixel.
pub fn draw_stretched(
    fb: &mut Framebuffer,
    textures: &TextureManager,
    key: char,
    x_start: u32,
    y_start: u32,
    x_end: u32,
    y_end: u32,
)
    requires
        old(fb).inv(),
        textures.resolved(key) is Some,
    ensures
        final(fb).inv(),
        final(fb)@ == stretched(
            old(fb)@,
            textures.resolved(key).unwrap(),
            x_start as int,
            y_start as int,
            x_end as int,
            y_end as int,
        ),
{
    if !(x_start < x_end && y_start < y_end) {
        return;
    }
    let (texture_width, texture_height) = match textures.dimensions(key) {
        Some(d) => d,
        None => {
            return;
        },
    };
    let ghost t = textures.resolved(key).unwrap();
    let ghost (xs, ys, xe, ye) = (x_start as int, y_start as int, x_end as int, y_end as int);
    let ghost f = texel_fn(t, xs, ys, xe, ye);
    let ghost m0 = fb@;
    proof {
        lemma_paint_with_nothing(m0.rows, rect_cover(xs, ys, xe - xs, 0), f);
    }
    let mut y: u32 = y_start;
    while y < y_end
        invariant
            fb.inv(),
            (xs, ys, xe, ye) == (x_start as int, y_start as int, x_end as int, y_end as int),
            xs < xe,
            ys <= y <= ye,
            t == textures.resolved(key).unwrap(),
            textures.resolved(key) is Some,
            texture_width == t.width,
            texture_height == t.height,
            f == texel_fn(t, xs, ys, xe, ye),
            fb@ == (FrameModel {
                rows: paint_with(m0.rows, rect_cover(xs, ys, xe - xs, y - ys), f),
                current: if y > ys {
                    f(xe - 1, y - 1)
                } else {
                    m0.current
                },
                ..m0
            }),
        decreases y_end - y,
    {
        let mut x: u32 = x_start;
        proof {
            lemma_paint_with_same_cover(
                m0.rows,
                rect_cover(xs, ys, xe - xs, y - ys),
                |px: int, py: int| in_rect(px, py, xs, ys, xe - xs, y - ys) || (py == y && xs <= px < x),
                f,
            );
        }
        while x < x_end
            invariant
                fb.inv(),
                (xs, ys, xe, ye) == (x_start as int, y_start as int, x_end as int, y_end as int),
                xs <= x <= xe,
                ys <= y < ye,
                t == textures.resolved(key).unwrap(),
                textures.resolved(key) is Some,
                texture_width == t.width,
                texture_height == t.height,
                f == texel_fn(t, xs, ys, xe, ye),
                fb@ == (FrameModel {
                    rows: paint_with(
                        m0.rows,
                        |px: int, py: int| in_rect(px, py, xs, ys, xe - xs, y - ys) || (py == y && xs <= px < x),
                        f,
                    ),
                    current: if x > xs {
                        f(x - 1, y as int)
                    } else if y > ys {
                        f(xe - 1, y - 1)
                    } else {
                        m0.current
                    },
                    ..m0
                }),
            decreases x_end - x,
        {
            proof {
                assert(((x - xs) as int) * (texture_width as int) <= 0xffff_ffff * 0xffff_ffff) by (nonlinear_arith)
                    requires
                        0 <= x - xs <= 0xffff_ffff,
                        0 <= texture_width <= 0xffff_ffff,
                ;
                assert(((y - ys) as int) * (texture_height as int) <= 0xffff_ffff * 0xffff_ffff) by (nonlinear_arith)
                    requires
                        0 <= y - ys <= 0xffff_ffff,
                        0 <= texture_height <= 0xffff_ffff,
                ;
                lemma_scaled_below(x - xs, texture_width as int, xe - xs);
                lemma_scaled_below(y - ys, texture_height as int, ye - ys);
            }
            let tx = ((x - x_start) as u64 * texture_width as u64 / (x_end - x_start) as u64) as u32;
            let ty = ((y - y_start) as u64 * texture_height as u64 / (y_end - y_start) as u64) as u32;
            let color = textures.get_pixel_color(key, tx, ty);
            assert(color == f(x as int, y as int));
            fb.set_current_color(color);
            fb.set_pixel(x, y);
            proof {
                let a = |px: int, py: int| in_rect(px, py, xs, ys, xe - xs, y - ys) || (py == y && xs <= px < x);
                lemma_paint_with_point(m0.rows, a, f, x as int, y as int);
                lemma_paint_with_same_cover(
                    m0.rows,
                    |px: int, py: int| a(px, py) || (px == x && py == y),
                    |px: int, py: int| in_rect(px, py, xs, ys, xe - xs, y - ys) || (py == y && xs <= px < x + 1),
                    f,
                );
            }
            x += 1;
        }
        proof {
            lemma_paint_with_same_cover(
                m0.rows,
                |px: int, py: int| in_rect(px, py, xs, ys, xe - xs, y - ys) || (py == y && xs <= px < x),
                rect_cover(xs, ys, xe - xs, y + 1 - ys),
                f,
            );
        }
        y += 1;
    }
}

/// The pixel span of column (or row) `i` of `n`, over `size` pixels.
pub open spec fn span_start(i: int, n: int, size: int) -> int {
    i * size / n
}

/// Cell `(col, row)` of the map drawn into `m`.
pub open spec fn map_cell_drawn(
    m: FrameModel,
    g: Seq<Seq<char>>,
    tex: TextureManager,
    w: int,
    h: int,
    row: int,
    col: int,
) -> FrameModel {
    let columns = map_columns(g);
    let rows = map_rows(g);
    cell_drawn(
        m,
        tex,
        g[row][col],
        col,
        row,
        span_start(col, columns, w),
        span_start(row, rows, h),
        span_start(col + 1, columns, w),
        span_start(row + 1, rows, h),
    )
}

/// The first `k` cells of row `row` of the map drawn into `m`, left to right.
pub open spec fn map_row_drawn(
    m: FrameModel,
    g: Seq<Seq<char>>,
    tex: TextureManager,
    w: int,
    h: int,
    row: int,
    k: nat,
) -> FrameModel
    decreases k,
{
    if k == 0 {
        m
    } else {
        map_cell_drawn(map_row_drawn(m, g, tex, w, h, row, (k - 1) as nat), g, tex, w, h, row, k - 1)
    }
}

/// The first `n` rows of the map drawn into `m`, top to bottom.
pub open spec fn map_rows_drawn(m: FrameModel, g: Seq<Seq<char>>, tex: TextureManager, w: int, h: int, n: nat) -> FrameModel
    decreases n,
{
    if n == 0 {
        m
    } else {
        let before = map_rows_drawn(m, g, tex, w, h, (n - 1) as nat);
        map_row_drawn(before, g, tex, w, h, n - 1, g[n - 1].len())
    }
}

/// The whole maze drawn over the framebuffer: each cell over its share of
/// the picture, row after row.
pub open spec fn maze_drawn(m: FrameModel, g: Seq<Seq<char>>, tex: TextureManager) -> FrameModel {
    map_rows_drawn(m, g, tex, m.width as int, m.height as int, g.len())
}

/// Draws the maze over the whole framebuffer.
pub fn render_maze(fb: &mut Framebuffer, maze: &Maze, textures: &TextureManager)
    requires
        old(fb).inv(),
        maze@.len() <= u32::MAX,
        max_row_len(grid(maze)) <= u32::MAX,
    ensures
        final(fb).inv(),
        final(fb)@ == maze_drawn(old(fb)@, grid(maze), *textures),
{
    let ghost g = grid(maze);
    let ghost m0 = fb@;
    proof {
        lemma_grid(maze);
        lemma_max_row_len(g);
    }
    let longest = longest_row(maze);
    let columns: u64 = if maze.len() == 0 {
        1
    } else {
        longest as u64
    };
    let rows: u64 = if maze.len() == 0 {
        1
    } else {
        maze.len() as u64
    };
    let width = fb.width();
    let height = fb.height();
    let ghost (w, h) = (width as int, height as int);
    let mut row_index: usize = 0;
    while row_index < maze.len()
        invariant
            fb.inv(),
            g == grid(maze),
            grid_facts(maze, g),
            columns == map_columns(g),
            rows == map_rows(g),
            g.len() > 0 ==> forall|y: int| 0 <= y < g.len() ==> #[trigger] g[y].len() <= max_row_len(g),
            (w, h) == (width as int, height as int),
            columns <= u32::MAX,
            rows <= u32::MAX,
            w == m0.width,
            h == m0.height,
            0 <= row_index <= maze@.len(),
            fb@ == map_rows_drawn(m0, g, *textures, w, h, row_index as nat),
        decreases maze@.len() - row_index,
    {
        let row = &maze[row_index];
        let mut col: usize = 0;
        while col < row.len()
            invariant
                fb.inv(),
                g == grid(maze),
                grid_facts(maze, g),
                columns == map_columns(g),
                rows == map_rows(g),
                g.len() > 0 ==> forall|y: int| 0 <= y < g.len() ==> #[trigger] g[y].len() <= max_row_len(g),
                (w, h) == (width as int, height as int),
                columns <= u32::MAX,
                rows <= u32::MAX,
                0 <= row_index < maze@.len(),
                row@ == maze@[row_index as int]@,
                0 <= col <= row@.len(),
                fb@ == map_row_drawn(
                    map_rows_drawn(m0, g, *textures, w, h, row_index as nat),
                    g,
                    *textures,
                    w,
                    h,
                    row_index as int,
                    col as nat,
                ),
            decreases row@.len() - col,
        {
            proof {
                assert(g[row_index as int].len() <= max_row_len(g));
                assert((col as int + 1) * (width as int) <= 0xffff_ffff * 0xffff_ffff) by (nonlinear_arith)
                    requires
                        0 <= col + 1 <= 0xffff_ffff,
                        0 <= width <= 0xffff_ffff,
                ;
                assert((col as int) * (width as int) <= (col as int + 1) * (width as int)) by (nonlinear_arith)
                    requires
                        0 <= col,
                        0 <= width,
                ;
                assert((row_index as int) * (height as int) <= (row_index as int + 1) * (height as int)) by (nonlinear_arith)
                    requires
                        0 <= row_index,
                        0 <= height,
                ;
                assert((row_index as int + 1) * (height as int) <= 0xffff_ffff * 0xffff_ffff) by (nonlinear_arith)
                    requires
                        0 <= row_index + 1 <= 0xffff_ffff,
                        0 <= height <= 0xffff_ffff,
                ;
                lemma_scaled_below(col as int, w, columns as int);
                lemma_scaled_below(col + 1, w, columns as int + 1);
                lemma_scaled_below(row_index as int, h, rows as int);
                lemma_scaled_below(row_index + 1, h, rows as int + 1);
                assert((col + 1) * w / (columns as int) <= w) by (nonlinear_arith)
                    requires
                        0 <= col < columns,
                        0 <= w,
                ;
                assert((row_index + 1) * h / (rows as int) <= h) by (nonlinear_arith)
                    requires
                        0 <= row_index < rows,
                        0 <= h,
                ;
                assert(0 <= (col + 1) * w / (columns as int)) by (nonlinear_arith)
                    requires
                        0 <= col < columns,
                        0 <= w,
                ;
                assert(0 <= (row_index + 1) * h / (rows as int)) by (nonlinear_arith)
                    requires
                        0 <= row_index < rows,
                        0 <= h,
                ;
            }
            let x_start = ((col as u64) * (width as u64) / columns) as u32;
            let y_start = ((row_index as u64) * (height as u64) / rows) as u32;
            let x_end = (((col as u64) + 1) * (width as u64) / columns) as u32;
            let y_end = (((row_index as u64) + 1) * (height as u64) / rows) as u32;
            draw_cell(fb, textures, x_start, y_start, x_end, y_end, col, row_index, row[col]);
            col += 1;
        }
        row_index += 1;
    }
}

/// Where the minimap goes: the grid it draws (`columns` by `rows`), its
/// size in pixels, and its top-left corner.
#[derive(Clone, Copy, PartialEq, Eq, Debug, Structural)]
pub struct MinimapLayout {
    pub columns: u32,
    pub rows: u32,
    pub width: u32,
    pub height: u32,
    pub margin_x: u32,
    pub margin_y: u32,
}

/// The gap between the minimap and the picture's top and right edges.
pub const MINIMAP_MARGIN: u32 = 12;

/// The width of the minimap's border.
pub const MINIMAP_BORDER: u32 = 2;

/// The minimap's size: at most a quarter of the picture each way, keeping
/// the maze's proportions.
pub open spec fn minimap_size(fb_width: int, fb_height: int, columns: int, rows: int) -> (int, int) {
    let max_width = fb_width / 4;
    let max_height = fb_height / 4;
    let target_height = (rows * max_width + columns - 1) / columns;
    if target_height > max_height {
        (max_height * columns / rows, max_height)
    } else {
        (max_width, target_height)
    }
}

/// The minimap fits in a quarter of the picture's width and height and keeps
/// the maze's proportions: its height per column and width per row differ
/// by less than one row or column.
pub proof fn lemma_minimap_proportions(fb_width: int, fb_height: int, columns: int, rows: int)
    requires
        0 <= fb_width,
        0 <= fb_height,
        1 <= columns,
        1 <= rows,
    ensures
        ({
            let (w, h) = minimap_size(fb_width, fb_height, columns, rows);
            &&& 0 <= w <= fb_width / 4
            &&& 0 <= h <= fb_height / 4
            &&& 0 <= h * columns - w * rows
            &&& h * columns - w * rows < (if rows > columns {
                rows
            } else {
                columns
            })
        }),
{
    let mw = fb_width / 4;
    let mh = fb_height / 4;
    let x = rows * mw;
    let t = (x + columns - 1) / columns;
    assert(0 <= x) by (nonlinear_arith)
        requires
            x == rows * mw,
            0 <= mw,
            1 <= rows,
    ;
    assert(t * columns <= x + columns - 1 && x + columns - 1 < t * columns + columns && 0 <= t) by (nonlinear_arith)
        requires
            t == (x + columns - 1) / columns,
            1 <= columns,
            0 <= x,
    ;
    if t > mh {
        let w = mh * columns / rows;
        assert(mh * columns < x) by (nonlinear_arith)
            requires
                t * columns <= x + columns - 1,
                t >= mh + 1,
                1 <= columns,
        ;
        assert(0 <= w < mw && 0 <= mh * columns - w * rows < rows) by (nonlinear_arith)
            requires
                w == mh * columns / rows,
                mh * columns < x,
                x == rows * mw,
                0 <= mh,
                1 <= columns,
                1 <= rows,
        {
            assert(w * rows <= mh * columns);
            assert(mh * columns < w * rows + rows);
            assert(w * rows < mw * rows);
        }
    } else {
        assert(0 <= t * columns - mw * rows < columns) by (nonlinear_arith)
            requires
                t * columns <= x + columns - 1,
                x + columns - 1 < t * columns + columns,
                x == rows * mw,
        ;
    }
}

/// The minimap layout for a picture of `fb_width` by `fb_height` pixels:
/// in the top-right corner, `MINIMAP_MARGIN` pixels from the edges.
pub open spec fn minimap_layout_of(fb_width: int, fb_height: int, g: Seq<Seq<char>>) -> MinimapLayout {
    let columns = map_columns(g);
    let rows = map_rows(g);
    let (width, height) = minimap_size(fb_width, fb_height, columns, rows);
    MinimapLayout {
        columns: columns as u32,
        rows: rows as u32,
        width: width as u32,
        height: height as u32,
        margin_x: (if fb_width >= width + MINIMAP_MARGIN {
            fb_width - (width + MINIMAP_MARGIN)
        } else {
            0
        }) as u32,
        margin_y: MINIMAP_MARGIN,
    }
}

/// The maze and picture admit a minimap: the maze has at least one column,
/// and the minimap and its border fit in 32-bit coordinates.
pub open spec fn minimap_fits(fb_width: int, fb_height: int, g: Seq<Seq<char>>) -> bool {
    let columns = map_columns(g);
    let rows = map_rows(g);
    let (width, height) = minimap_size(fb_width, fb_height, columns, rows);
    &&& columns >= 1
    &&& g.len() <= u32::MAX
    &&& max_row_len(g) <= u32::MAX
    &&& width + MINIMAP_MARGIN + MINIMAP_BORDER + 1 <= u32::MAX
    &&& height + MINIMAP_MARGIN + MINIMAP_BORDER + 1 <= u32::MAX
}

/// Where the minimap goes in a picture of `fb_width` by `fb_height`.
pub fn minimap_layout(fb_width: u32, fb_height: u32, maze: &Maze) -> (layout: MinimapLayout)
    requires
        minimap_fits(fb_width as int, fb_height as int, grid(maze)),
    ensures
        layout == minimap_layout_of(fb_width as int, fb_height as int, grid(maze)),
        layout.width as int == minimap_size(
            fb_width as int,
            fb_height as int,
            map_columns(grid(maze)),
            map_rows(grid(maze)),
        ).0,
        layout.height as int == minimap_size(
            fb_width as int,
            fb_height as int,
            map_columns(grid(maze)),
            map_rows(grid(maze)),
        ).1,
        layout.columns as int == map_columns(grid(maze)),
        layout.rows as int == map_rows(grid(maze)),
        layout.columns >= 1,
        layout.rows >= 1,
        layout.margin_x + layout.width + MINIMAP_BORDER + 1 <= u32::MAX,
        layout.margin_y + layout.height + MINIMAP_BORDER + 1 <= u32::MAX,
{
    let ghost g = grid(maze);
    let longest = longest_row(maze);
    let columns: u64 = if maze.len() == 0 {
        1
    } else {
        longest as u64
    };
    let rows: u64 = if maze.len() == 0 {
        1
    } else {
        maze.len() as u64
    };
    let max_width = (fb_width / 4) as u64;
    let max_height = (fb_height / 4) as u64;
    proof {
        assert((rows as int) * (max_width as int) <= 0xffff_ffff * 0xffff_ffff) by (nonlinear_arith)
            requires
                0 <= rows <= 0xffff_ffff,
                0 <= max_width <= 0xffff_ffff,
        ;
        assert((max_height as int) * (columns as int) <= 0xffff_ffff * 0xffff_ffff) by (nonlinear_arith)
            requires
                0 <= columns <= 0xffff_ffff,
                0 <= max_height <= 0xffff_ffff,
        ;
    }
    let target_height = (rows * max_width + columns - 1) / columns;
    let (width, height) = if target_height > max_height {
        (max_height * columns / rows, max_height)
    } else {
        (max_width, target_height)
    };
    let width = width as u32;
    let height = height as u32;
    let margin_x = if fb_width >= width + MINIMAP_MARGIN {
        fb_width - (width + MINIMAP_MARGIN)
    } else {
        0
    };
    MinimapLayout { columns: columns as u32, rows: rows as u32, width, height, margin_x, margin_y: MINIMAP_MARGIN }
}

/// The colour of a maze cell on the minimap: walls black, goal red, start
/// magenta, anything else white.
pub open spec fn minimap_cell_color(ch: char) -> Color {
    if ch == '+' || ch == '-' || ch == '|' || ch == 'D' {
        Color::black()
    } else if ch == 'g' {
        Color::red()
    } else if ch == 'p' {
        Color::magenta()
    } else {
        Color::white()
    }
}

/// The pixels of cell `(col, row)` on the minimap.
pub open spec fn minimap_cell_cover(l: MinimapLayout, row: int, col: int) -> spec_fn(int, int) -> bool {
    let xs = l.margin_x + span_start(col, l.columns as int, l.width as int);
    let xe = l.margin_x + span_start(col + 1, l.columns as int, l.width as int);
    let ys = l.margin_y + span_start(row, l.rows as int, l.height as int);
    let ye = l.margin_y + span_start(row + 1, l.rows as int, l.height as int);
    rect_cover(xs, ys, xe - xs, ye - ys)
}

/// The first `k` cells of row `row` drawn on the minimap.
pub open spec fn minimap_row_drawn(m: FrameModel, g: Seq<Seq<char>>, l: MinimapLayout, row: int, k: nat) -> FrameModel
    decreases k,
{
    if k == 0 {
        m
    } else {
        painted(
            minimap_row_drawn(m, g, l, row, (k - 1) as nat),
            minimap_cell_cover(l, row, k - 1),
            minimap_cell_color(g[row][k - 1]),
        )
    }
}

/// The first `n` rows drawn on the minimap.
pub open spec fn minimap_rows_drawn(m: FrameModel, g: Seq<Seq<char>>, l: MinimapLayout, n: nat) -> FrameModel
    decreases n,
{
    if n == 0 {
        m
    } else {
        minimap_row_drawn(minimap_rows_drawn(m, g, l, (n - 1) as nat), g, l, n - 1, g[n - 1].len())
    }
}

/// The minimap square marking the first cell holding `ch`, if any.
pub open spec fn cell_marker_drawn(m: FrameModel, g: Seq<Seq<char>>, l: MinimapLayout, ch: char, color: Color) -> FrameModel {
    if crate::level::contains_char(g, ch) {
        let c = crate::level::first_with(g, ch);
        painted(
            m,
            square_cover(
                l.margin_x + span_start(c.0, l.columns as int, l.width as int),
                l.margin_y + span_start(c.1, l.rows as int, l.height as int),
                2,
            ),
            color,
        )
    } else {
        m
    }
}

/// The first `n` of a list of markers drawn: those `shown`, as squares of
/// `radius` around their offsets from the minimap's corner.
pub open spec fn markers_drawn(
    m: FrameModel,
    l: MinimapLayout,
    offsets: Seq<(u32, u32)>,
    shown: spec_fn(int) -> bool,
    radius: int,
    color: Color,
    n: nat,
) -> FrameModel
    decreases n,
{
    if n == 0 {
        m
    } else {
        let before = markers_drawn(m, l, offsets, shown, radius, color, (n - 1) as nat);
        if shown(n - 1) {
            painted(
                before,
                square_cover(l.margin_x + offsets[n - 1].0, l.margin_y + offsets[n - 1].1, radius),
                color,
            )
        } else {
            before
        }
    }
}

/// The entries among the first `n` of `s` whose position satisfies `keep`,
/// in order.
pub open spec fn kept<T>(s: Seq<T>, keep: spec_fn(int) -> bool, n: nat) -> Seq<T>
    decreases n,
{
    if n == 0 {
        Seq::empty()
    } else {
        let before = kept(s, keep, (n - 1) as nat);
        if keep(n - 1) {
            before.push(s[n - 1])
        } else {
            before
        }
    }
}

/// Keeping the same positions of two lists keeps as many entries of each.
pub proof fn lemma_kept_len<A, B>(a: Seq<A>, b: Seq<B>, keep: spec_fn(int) -> bool, n: nat)
    ensures
        kept(a, keep, n).len() == kept(b, keep, n).len(),
        kept(a, keep, n).len() <= n,
    decreases n,
{
    if n > 0 {
        lemma_kept_len(a, b, keep, (n - 1) as nat);
    }
}

/// What holds of every kept entry of a list holds of each entry of what is
/// kept.
pub proof fn lemma_kept_entries<T>(s: Seq<T>, keep: spec_fn(int) -> bool, n: nat, prop: spec_fn(T) -> bool)
    requires
        n <= s.len(),
        forall|j: int| 0 <= j < n && #[trigger] keep(j) ==> prop(s[j]),
    ensures
        forall|i: int| 0 <= i < kept(s, keep, n).len() ==> prop(#[trigger] kept(s, keep, n)[i]),
    decreases n,
{
    if n > 0 {
        lemma_kept_entries(s, keep, (n - 1) as nat, prop);
        let before = kept(s, keep, (n - 1) as nat);
        if keep(n - 1) {
            assert forall|i: int| 0 <= i < kept(s, keep, n).len() implies prop(#[trigger] kept(s, keep, n)[i]) by {
                if i < before.len() {
                    assert(kept(s, keep, n)[i] == before[i]);
                }
            }
        }
    }
}

/// Markers drawn depend only on the first `n` offsets and on which of them
/// are shown.
proof fn lemma_markers_prefix(
    m: FrameModel,
    l: MinimapLayout,
    o1: Seq<(u32, u32)>,
    s1: spec_fn(int) -> bool,
    o2: Seq<(u32, u32)>,
    s2: spec_fn(int) -> bool,
    radius: int,
    color: Color,
    n: nat,
)
    requires
        forall|k: int| #![trigger o1[k]] #![trigger s1(k)] 0 <= k < n ==> o1[k] == o2[k] && s1(k) == s2(k),
    ensures
        markers_drawn(m, l, o1, s1, radius, color, n) == markers_drawn(m, l, o2, s2, radius, color, n),
    decreases n,
{
    if n > 0 {
        assert forall|k: int| #![trigger o1[k]] #![trigger s1(k)] 0 <= k < n - 1 implies o1[k] == o2[k] && s1(k) == s2(k) by {}
        lemma_markers_prefix(m, l, o1, s1, o2, s2, radius, color, (n - 1) as nat);
        assert(o1[n - 1] == o2[n - 1] && s1(n - 1) == s2(n - 1));
    }
}

/// Markers that are not shown leave the picture as it is: drawing a list of
/// markers gives the same picture as drawing only the shown ones.
pub proof fn lemma_markers_only_shown(
    m: FrameModel,
    l: MinimapLayout,
    offsets: Seq<(u32, u32)>,
    shown: spec_fn(int) -> bool,
    shown_kept: spec_fn(int) -> bool,
    radius: int,
    color: Color,
    n: nat,
)
    requires
        n <= offsets.len(),
        forall|i: int| 0 <= i < kept(offsets, shown, n).len() ==> #[trigger] shown_kept(i),
    ensures
        markers_drawn(m, l, offsets, shown, radius, color, n) == markers_drawn(
            m,
            l,
            kept(offsets, shown, n),
            shown_kept,
            radius,
            color,
            kept(offsets, shown, n).len(),
        ),
    decreases n,
{
    if n > 0 {
        let t = kept(offsets, shown, (n - 1) as nat);
        assert forall|i: int| 0 <= i < t.len() implies #[trigger] shown_kept(i) by {
            if shown(n - 1) {
                assert(kept(offsets, shown, n).len() == t.len() + 1);
            }
        }
        lemma_markers_only_shown(m, l, offsets, shown, shown_kept, radius, color, (n - 1) as nat);
        if shown(n - 1) {
            let u = t.push(offsets[n - 1]);
            assert(u == kept(offsets, shown, n));
            assert(shown_kept(t.len() as int));
            lemma_markers_prefix(m, l, u, shown_kept, t, shown_kept, radius, color, t.len());
            assert(u[t.len() as int] == offsets[n - 1]);
        }
    }
}

/// The minimap leaves out enemies out of play and pickups other than
/// switches still there: drawing it with only the enemies in play and the
/// switches still there, each with its offset, gives the same picture.
pub proof fn lemma_minimap_only_shown_markers(
    m: FrameModel,
    g: Seq<Seq<char>>,
    enemies: Seq<crate::sprites::Enemy>,
    enemy_offsets: Seq<(u32, u32)>,
    pickups: Seq<crate::combat::Pickup>,
    pickup_offsets: Seq<(u32, u32)>,
    player_offset: (u32, u32),
)
    requires
        enemy_offsets.len() == enemies.len(),
        pickup_offsets.len() == pickups.len(),
    ensures
        ({
            let in_play = |i: int| enemies[i].active;
            let switch_there = |i: int|
                pickups[i].active && pickups[i].kind == crate::combat::PickupKind::Switch;
            minimap_drawn(m, g, enemies, enemy_offsets, pickups, pickup_offsets, player_offset) == minimap_drawn(
                m,
                g,
                kept(enemies, in_play, enemies.len()),
                kept(enemy_offsets, in_play, enemies.len()),
                kept(pickups, switch_there, pickups.len()),
                kept(pickup_offsets, switch_there, pickups.len()),
                player_offset,
            )
        }),
{
    let in_play = |i: int| enemies[i].active;
    let switch_there = |i: int| pickups[i].active && pickups[i].kind == crate::combat::PickupKind::Switch;
    let e2 = kept(enemies, in_play, enemies.len());
    let eo2 = kept(enemy_offsets, in_play, enemies.len());
    let p2 = kept(pickups, switch_there, pickups.len());
    let po2 = kept(pickup_offsets, switch_there, pickups.len());
    lemma_kept_len(enemies, enemy_offsets, in_play, enemies.len());
    lemma_kept_len(pickups, pickup_offsets, switch_there, pickups.len());
    lemma_kept_entries(enemies, in_play, enemies.len(), |e: crate::sprites::Enemy| e.active);
    lemma_kept_entries(
        pickups,
        switch_there,
        pickups.len(),
        |p: crate::combat::Pickup| p.active && p.kind == crate::combat::PickupKind::Switch,
    );
    let l = minimap_layout_of(m.width as int, m.height as int, g);
    let bx = if l.margin_x >= MINIMAP_BORDER {
        l.margin_x - MINIMAP_BORDER
    } else {
        0
    };
    let by = l.margin_y - MINIMAP_BORDER;
    let m1 = painted(
        m,
        rect_cover(bx, by, l.margin_x + l.width + MINIMAP_BORDER - bx, l.margin_y + l.height + MINIMAP_BORDER - by),
        Color::white(),
    );
    let m4 = cell_marker_drawn(
        cell_marker_drawn(minimap_rows_drawn(m1, g, l, g.len()), g, l, 'p', Color::magenta()),
        g,
        l,
        'g',
        Color::red(),
    );
    let e_shown2 = |i: int| e2[i].active;
    let p_shown2 = |i: int| p2[i].active && p2[i].kind == crate::combat::PickupKind::Switch;
    lemma_markers_only_shown(m4, l, enemy_offsets, in_play, e_shown2, 2, Color::red(), enemies.len());
    let m5 = markers_drawn(m4, l, enemy_offsets, in_play, 2, Color::red(), enemies.len());
    lemma_markers_only_shown(m5, l, pickup_offsets, switch_there, p_shown2, 3, Color::orange(), pickups.len());
}

/// Marker offsets stay within 32-bit coordinates once placed and grown.
pub open spec fn offsets_fit(l: MinimapLayout, offsets: Seq<(u32, u32)>) -> bool {
    forall|i: int|
        0 <= i < offsets.len() ==> l.margin_x + (#[trigger] offsets[i]).0 + 3 < u32::MAX && l.margin_y
            + offsets[i].1 + 3 < u32::MAX
}

/// The minimap: a white frame, the maze cells, squares on the start and
/// the goal, then red squares on the enemies still in play, orange squares
/// on the switches still there, and a sky blue square on the player. The
/// offsets place enemies, pickups and player relative to the minimap's
/// corner.
pub open spec fn minimap_drawn(
    m: FrameModel,
    g: Seq<Seq<char>>,
    enemies: Seq<crate::sprites::Enemy>,
    enemy_offsets: Seq<(u32, u32)>,
    pickups: Seq<crate::combat::Pickup>,
    pickup_offsets: Seq<(u32, u32)>,
    player_offset: (u32, u32),
) -> FrameModel {
    let l = minimap_layout_of(m.width as int, m.height as int, g);
    let bx = if l.margin_x >= MINIMAP_BORDER {
        l.margin_x - MINIMAP_BORDER
    } else {
        0
    };
    let by = l.margin_y - MINIMAP_BORDER;
    let m1 = painted(
        m,
        rect_cover(bx, by, l.margin_x + l.width + MINIMAP_BORDER - bx, l.margin_y + l.height + MINIMAP_BORDER - by),
        Color::white(),
    );
    let m2 = minimap_rows_drawn(m1, g, l, g.len());
    let m3 = cell_marker_drawn(m2, g, l, 'p', Color::magenta());
    let m4 = cell_marker_drawn(m3, g, l, 'g', Color::red());
    let m5 = markers_drawn(m4, l, enemy_offsets, |i: int| enemies[i].active, 2, Color::red(), enemies.len());
    let m6 = markers_drawn(
        m5,
        l,
        pickup_offsets,
        |i: int| pickups[i].active && pickups[i].kind == crate::combat::PickupKind::Switch,
        3,
        Color::orange(),
        pickups.len(),
    );
    painted(
        m6,
        square_cover(l.margin_x + player_offset.0, l.margin_y + player_offset.1, 3),
        Color::skyblue(),
    )
}

/// Draws the minimap in the top-right corner.
pub fn render_minimap(
    fb: &mut Framebuffer,
    maze: &Maze,
    enemies: &Vec<crate::sprites::Enemy>,
    enemy_offsets: &Vec<(u32, u32)>,
    pickups: &Vec<crate::combat::Pickup>,
    pickup_offsets: &Vec<(u32, u32)>,
    player_offset: (u32, u32),
)
    requires
        old(fb).inv(),
        minimap_fits(old(fb)@.width as int, old(fb)@.height as int, grid(maze)),
        enemy_offsets@.len() == enemies@.len(),
        pickup_offsets@.len() == pickups@.len(),
        offsets_fit(minimap_layout_of(old(fb)@.width as int, old(fb)@.height as int, grid(maze)), enemy_offsets@),
        offsets_fit(minimap_layout_of(old(fb)@.width as int, old(fb)@.height as int, grid(maze)), pickup_offsets@),
        offsets_fit(minimap_layout_of(old(fb)@.width as int, old(fb)@.height as int, grid(maze)), seq![player_offset]),
    ensures
        final(fb).inv(),
        final(fb)@ == minimap_drawn(
            old(fb)@,
            grid(maze),
            enemies@,
            enemy_offsets@,
            pickups@,
            pickup_offsets@,
            player_offset,
        ),
{
    let ghost g = grid(maze);
    let ghost m0 = fb@;
    proof {
        lemma_grid(maze);
        lemma_max_row_len(g);
    }
    let fb_width = fb.width();
    let fb_height = fb.height();
    let l = minimap_layout(fb_width, fb_height, maze);
    let bx = if l.margin_x >= MINIMAP_BORDER {
        l.margin_x - MINIMAP_BORDER
    } else {
        0
    };
    let by = l.margin_y - MINIMAP_BORDER;
    draw_rectangle(
        fb,
        bx,
        by,
        l.margin_x + l.width + MINIMAP_BORDER - bx,
        l.margin_y + l.height + MINIMAP_BORDER - by,
        Color::white(),
    );
    let ghost m1 = fb@;
    let mut row: usize = 0;
    while row < maze.len()
        invariant
            fb.inv(),
            g == grid(maze),
            grid_facts(maze, g),
            l == minimap_layout_of(m0.width as int, m0.height as int, g),
            l.columns as int == map_columns(g),
            l.rows as int == map_rows(g),
            l.columns >= 1,
            l.rows >= 1,
            l.margin_x + l.width + MINIMAP_BORDER + 1 <= u32::MAX,
            l.margin_y + l.height + MINIMAP_BORDER + 1 <= u32::MAX,
            g.len() > 0 ==> forall|y: int| 0 <= y < g.len() ==> #[trigger] g[y].len() <= max_row_len(g),
            0 <= row <= maze@.len(),
            fb@ == minimap_rows_drawn(m1, g, l, row as nat),
        decreases maze@.len() - row,
    {
        let cells = &maze[row];
        let mut col: usize = 0;
        while col < cells.len()
            invariant
                fb.inv(),
                g == grid(maze),
                grid_facts(maze, g),
                l.columns as int == map_columns(g),
                l.rows as int == map_rows(g),
                l.columns >= 1,
                l.rows >= 1,
                l.margin_x + l.width + MINIMAP_BORDER + 1 <= u32::MAX,
                l.margin_y + l.height + MINIMAP_BORDER + 1 <= u32::MAX,
                g.len() > 0 ==> forall|y: int| 0 <= y < g.len() ==> #[trigger] g[y].len() <= max_row_len(g),
                0 <= row < maze@.len(),
                cells@ == maze@[row as int]@,
                0 <= col <= cells@.len(),
                fb@ == minimap_row_drawn(minimap_rows_drawn(m1, g, l, row as nat), g, l, row as int, col as nat),
            decreases cells@.len() - col,
        {
            let cell = cells[col];
            let color = if cell == '+' || cell == '-' || cell == '|' || cell == 'D' {
                Color::black()
            } else if cell == 'g' {
                Color::red()
            } else if cell == 'p' {
                Color::magenta()
            } else {
                Color::white()
            };
            proof {
                assert(g[row as int].len() <= max_row_len(g));
                lemma_span(col as int, l.columns as int, l.width as int);
                lemma_span(row as int, l.rows as int, l.height as int);
            }
            let x_start = l.margin_x + ((col as u64) * (l.width as u64) / (l.columns as u64)) as u32;
            let x_end = l.margin_x + (((col as u64) + 1) * (l.width as u64) / (l.columns as u64)) as u32;
            let y_start = l.margin_y + ((row as u64) * (l.height as u64) / (l.rows as u64)) as u32;
            let y_end = l.margin_y + (((row as u64) + 1) * (l.height as u64) / (l.rows as u64)) as u32;
            draw_rectangle(fb, x_start, y_start, x_end - x_start, y_end - y_start, color);
            col += 1;
        }
        row += 1;
    }
    let ghost m2 = fb@;
    draw_cell_marker(fb, maze, l, 'p', Color::magenta());
    draw_cell_marker(fb, maze, l, 'g', Color::red());
    let ghost m4 = fb@;
    let mut i: usize = 0;
    while i < enemies.len()
        invariant
            fb.inv(),
            enemy_offsets@.len() == enemies@.len(),
            offsets_fit(l, enemy_offsets@),
            0 <= i <= enemies@.len(),
            fb@ == markers_drawn(m4, l, enemy_offsets@, |k: int| enemies@[k].active, 2, Color::red(), i as nat),
        decreases enemies@.len() - i,
    {
        if enemies[i].active {
            let (ox, oy) = enemy_offsets[i];
            draw_square(fb, l.margin_x + ox, l.margin_y + oy, 2, Color::red());
        }
        i += 1;
    }
    let ghost m5 = fb@;
    let mut i: usize = 0;
    while i < pickups.len()
        invariant
            fb.inv(),
            pickup_offsets@.len() == pickups@.len(),
            offsets_fit(l, pickup_offsets@),
            0 <= i <= pickups@.len(),
            fb@ == markers_drawn(
                m5,
                l,
                pickup_offsets@,
                |k: int| pickups@[k].active && pickups@[k].kind == crate::combat::PickupKind::Switch,
                3,
                Color::orange(),
                i as nat,
            ),
        decreases pickups@.len() - i,
    {
        if pickups[i].active && pickups[i].kind == crate::combat::PickupKind::Switch {
            let (ox, oy) = pickup_offsets[i];
            draw_square(fb, l.margin_x + ox, l.margin_y + oy, 3, Color::orange());
        }
        i += 1;
    }
    proof {
        assert(seq![player_offset][0] == player_offset);
    }
    draw_square(fb, l.margin_x + player_offset.0, l.margin_y + player_offset.1, 3, Color::skyblue());
}

proof fn lemma_span(i: int, n: int, size: int)
    requires
        0 <= i < n,
        0 <= size <= u32::MAX,
        n <= u32::MAX,
    ensures
        0 <= i * size / n <= (i + 1) * size / n <= size,
        (i + 1) * size <= u64::MAX,
        0 <= i * size <= u64::MAX,
{
    assert(0 <= i * size / n <= (i + 1) * size / n <= size) by (nonlinear_arith)
        requires
            0 <= i < n,
            0 <= size,
    ;
    assert((i + 1) * size <= 0xffff_ffff * 0xffff_ffff) by (nonlinear_arith)
        requires
            0 <= i + 1 <= 0xffff_ffff,
            0 <= size <= 0xffff_ffff,
    ;
    assert(i * size <= (i + 1) * size) by (nonlinear_arith)
        requires
            0 <= i,
            0 <= size,
    ;
}

/// Draws the minimap square on the first cell holding `ch`, if any.
fn draw_cell_marker(fb: &mut Framebuffer, maze: &Maze, l: MinimapLayout, ch: char, color: Color)
    requires
        old(fb).inv(),
        l.columns as int == map_columns(grid(maze)),
        l.rows as int == map_rows(grid(maze)),
        l.columns >= 1,
        l.rows >= 1,
        l.margin_x + l.width + MINIMAP_BORDER + 1 <= u32::MAX,
        l.margin_y + l.height + MINIMAP_BORDER + 1 <= u32::MAX,
        grid(maze).len() <= u32::MAX,
    ensures
        final(fb).inv(),
        final(fb)@ == cell_marker_drawn(old(fb)@, grid(maze), l, ch, color),
{
    proof {
        lemma_grid(maze);
        lemma_max_row_len(grid(maze));
    }
    match crate::level::find_cell(maze, ch) {
        Some((column, row)) => {
            proof {
                assert(grid(maze)[row as int].len() <= max_row_len(grid(maze)));
                lemma_span(column as int, l.columns as int, l.width as int);
                lemma_span(row as int, l.rows as int, l.height as int);
            }
            let marker_x = l.margin_x + ((column as u64) * (l.width as u64) / (l.columns as u64)) as u32;
            let marker_y = l.margin_y + ((row as u64) * (l.height as u64) / (l.rows as u64)) as u32;
            draw_square(fb, marker_x, marker_y, 2, color);
        },
        None => {},
    }
}

} // verus!
