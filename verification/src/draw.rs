//! Drawing primitives on a framebuffer: rectangles, outlines, squares
//! around a point, and text in a small block font.
use vstd::prelude::*;
use crate::color::Color;
use crate::framebuffer::{lemma_paint_nothing, lemma_paint_same_cover, lemma_paint_union, painted, Framebuffer};

verus! {

/// Pixel `(px, py)` lies in the `w` by `h` rectangle whose top-left corner
/// is `(x, y)`.
pub open spec fn in_rect(px: int, py: int, x: int, y: int, w: int, h: int) -> bool {
    x <= px < x + w && y <= py < y + h
}

/// The pixels of a rectangle.
pub open spec fn rect_cover(x: int, y: int, w: int, h: int) -> spec_fn(int, int) -> bool {
    |px: int, py: int| in_rect(px, py, x, y, w, h)
}

/// Draws a filled `width` by `height` rectangle with top-left corner
/// `(x, y)`.
pub fn draw_rectangle(fb: &mut Framebuffer, x: u32, y: u32, width: u32, height: u32, color: Color)
    requires
        old(fb).inv(),
        x + width <= u32::MAX,
        y + height <= u32::MAX,
    ensures
        final(fb).inv(),
        final(fb)@ == painted(old(fb)@, rect_cover(x as int, y as int, width as int, height as int), color),
{
    let ghost m0 = fb@;
    fb.set_current_color(color);
    proof {
        lemma_paint_nothing(m0.rows, rect_cover(x as int, y as int, width as int, 0), color);
    }
    let mut row: u32 = y;
    while row < y + height
        invariant
            fb.inv(),
            y <= row <= y + height,
            y + height <= u32::MAX,
            x + width <= u32::MAX,
            fb@ == painted(m0, rect_cover(x as int, y as int, width as int, row - y), color),
        decreases y + height - row,
    {
        let mut column: u32 = x;
        proof {
            lemma_paint_same_cover(
                m0.rows,
                rect_cover(x as int, y as int, width as int, row - y),
                |px: int, py: int| in_rect(px, py, x as int, y as int, width as int, row - y) || (py == row && x
                    <= px < column),
                color,
            );
        }
        while column < x + width
            invariant
                fb.inv(),
                y <= row < y + height,
                x <= column <= x + width,
                x + width <= u32::MAX,
                fb@ == painted(
                    m0,
                    |px: int, py: int| in_rect(px, py, x as int, y as int, width as int, row - y) || (py == row && x
                        <= px < column),
                    color,
                ),
            decreases x + width - column,
        {
            let ghost before = fb@;
            fb.set_pixel(column, row);
            proof {
                let a = |px: int, py: int|
                    in_rect(px, py, x as int, y as int, width as int, row - y) || (py == row && x <= px < column);
                let b = |px: int, py: int| px == column && py == row;
                lemma_paint_union(m0.rows, a, b, color);
                lemma_paint_same_cover(
                    m0.rows,
                    |px: int, py: int| a(px, py) || b(px, py),
                    |px: int, py: int|
                        in_rect(px, py, x as int, y as int, width as int, row - y) || (py == row && x <= px < column
                            + 1),
                    color,
                );
            }
            column += 1;
        }
        proof {
            lemma_paint_same_cover(
                m0.rows,
                |px: int, py: int| in_rect(px, py, x as int, y as int, width as int, row - y) || (py == row && x
                    <= px < column),
                rect_cover(x as int, y as int, width as int, row + 1 - y),
                color,
            );
        }
        row += 1;
    }
}

/// The border pixels of a `w` by `h` rectangle with top-left corner `(x, y)`.
pub open spec fn outline_cover(x: int, y: int, w: int, h: int) -> spec_fn(int, int) -> bool {
    |px: int, py: int|
        (x <= px < x + w && (py == y || py == y + h - 1)) || (y <= py < y + h && (px == x || px == x + w - 1))
}

/// Draws the border of a `width` by `height` rectangle with top-left corner
/// `(x, y)`.
pub fn draw_outline(fb: &mut Framebuffer, x: u32, y: u32, width: u32, height: u32, color: Color)
    requires
        old(fb).inv(),
        x + width <= u32::MAX,
        y + height <= u32::MAX,
        width >= 1,
        height >= 1,
    ensures
        final(fb).inv(),
        final(fb)@ == painted(old(fb)@, outline_cover(x as int, y as int, width as int, height as int), color),
{
    let ghost m0 = fb@;
    fb.set_current_color(color);
    let mut column: u32 = x;
    proof {
        lemma_paint_nothing(
            m0.rows,
            |px: int, py: int| x <= px < column && (py == y || py == y + height - 1),
            color,
        );
    }
    while column < x + width
        invariant
            fb.inv(),
            x <= column <= x + width,
            x + width <= u32::MAX,
            y + height <= u32::MAX,
            height >= 1,
            fb@ == painted(m0, |px: int, py: int| x <= px < column && (py == y || py == y + height - 1), color),
        decreases x + width - column,
    {
        let bottom = y + height - 1;
        fb.set_pixel(column, y);
        fb.set_pixel(column, bottom);
        proof {
            let a = |px: int, py: int| x <= px < column && (py == y || py == y + height - 1);
            let b = |px: int, py: int| px == column && py == y;
            let c = |px: int, py: int| px == column && py == bottom;
            let ab = |px: int, py: int| a(px, py) || b(px, py);
            lemma_paint_union(m0.rows, a, b, color);
            lemma_paint_union(m0.rows, ab, c, color);
            lemma_paint_same_cover(
                m0.rows,
                |px: int, py: int| ab(px, py) || c(px, py),
                |px: int, py: int| x <= px < column + 1 && (py == y || py == y + height - 1),
                color,
            );
        }
        column += 1;
    }
    let mut row: u32 = y;
    proof {
        lemma_paint_same_cover(
            m0.rows,
            |px: int, py: int| x <= px < column && (py == y || py == y + height - 1),
            |px: int, py: int|
                (x <= px < x + width && (py == y || py == y + height - 1)) || (y <= py < row && (px == x || px
                    == x + width - 1)),
            color,
        );
    }
    while row < y + height
        invariant
            fb.inv(),
            y <= row <= y + height,
            x + width <= u32::MAX,
            y + height <= u32::MAX,
            width >= 1,
            height >= 1,
            fb@ == painted(
                m0,
                |px: int, py: int|
                    (x <= px < x + width && (py == y || py == y + height - 1)) || (y <= py < row && (px == x || px
                        == x + width - 1)),
                color,
            ),
        decreases y + height - row,
    {
        let right = x + width - 1;
        fb.set_pixel(x, row);
        fb.set_pixel(right, row);
        proof {
            let a = |px: int, py: int|
                (x <= px < x + width && (py == y || py == y + height - 1)) || (y <= py < row && (px == x || px == x
                    + width - 1));
            let b = |px: int, py: int| px == x && py == row;
            let c = |px: int, py: int| px == right && py == row;
            let ab = |px: int, py: int| a(px, py) || b(px, py);
            lemma_paint_union(m0.rows, a, b, color);
            lemma_paint_union(m0.rows, ab, c, color);
            lemma_paint_same_cover(
                m0.rows,
                |px: int, py: int| ab(px, py) || c(px, py),
                |px: int, py: int|
                    (x <= px < x + width && (py == y || py == y + height - 1)) || (y <= py < row + 1 && (px == x || px
                        == x + width - 1)),
                color,
            );
        }
        row += 1;
    }
    proof {
        lemma_paint_same_cover(
            m0.rows,
            |px: int, py: int|
                (x <= px < x + width && (py == y || py == y + height - 1)) || (y <= py < row && (px == x || px == x
                    + width - 1)),
            outline_cover(x as int, y as int, width as int, height as int),
            color,
        );
    }
}

/// The pixels within `radius` of `(x, y)` along both axes: a square, cut
/// at the picture's top and left edges.
pub open spec fn square_cover(x: int, y: int, radius: int) -> spec_fn(int, int) -> bool {
    |px: int, py: int|
        (if x >= radius {
            x - radius
        } else {
            0
        }) <= px <= x + radius && (if y >= radius {
            y - radius
        } else {
            0
        }) <= py <= y + radius
}

/// Draws a square of pixels within `radius` of `(x, y)`.
pub fn draw_square(fb: &mut Framebuffer, x: u32, y: u32, radius: u32, color: Color)
    requires
        old(fb).inv(),
        x + radius < u32::MAX,
        y + radius < u32::MAX,
    ensures
        final(fb).inv(),
        final(fb)@ == painted(old(fb)@, square_cover(x as int, y as int, radius as int), color),
{
    let x0 = if x >= radius {
        x - radius
    } else {
        0
    };
    let y0 = if y >= radius {
        y - radius
    } else {
        0
    };
    draw_rectangle(fb, x0, y0, x + radius + 1 - x0, y + radius + 1 - y0, color);
    proof {
        lemma_paint_same_cover(
            old(fb)@.rows,
            rect_cover(x0 as int, y0 as int, (x + radius + 1 - x0) as int, (y + radius + 1 - y0) as int),
            square_cover(x as int, y as int, radius as int),
            color,
        );
    }
}

/// The five rows of a character of the block font, three bits each, the
/// leftmost column in the highest bit; blank for characters it lacks.
pub open spec fn glyph_rows(ch: char) -> Seq<u32> {
    if ch == 'A' {
        seq![0b010, 0b101, 0b111, 0b101, 0b101]
    } else if ch == 'C' {
        seq![0b111, 0b100, 0b100, 0b100, 0b111]
    } else if ch == 'D' {
        seq![0b110, 0b101, 0b101, 0b101, 0b110]
    } else if ch == 'E' {
        seq![0b111, 0b100, 0b110, 0b100, 0b111]
    } else if ch == 'G' {
        seq![0b111, 0b100, 0b101, 0b101, 0b111]
    } else if ch == 'I' {
        seq![0b111, 0b010, 0b010, 0b010, 0b111]
    } else if ch == 'M' {
        seq![0b101, 0b111, 0b111, 0b101, 0b101]
    } else if ch == 'N' {
        seq![0b101, 0b111, 0b111, 0b111, 0b101]
    } else if ch == 'O' {
        seq![0b111, 0b101, 0b101, 0b101, 0b111]
    } else if ch == 'S' {
        seq![0b111, 0b100, 0b111, 0b001, 0b111]
    } else if ch == 'U' {
        seq![0b101, 0b101, 0b101, 0b101, 0b111]
    } else if ch == 'V' {
        seq![0b101, 0b101, 0b101, 0b101, 0b010]
    } else if ch == '0' {
        seq![0b111, 0b101, 0b101, 0b101, 0b111]
    } else if ch == '1' {
        seq![0b010, 0b110, 0b010, 0b010, 0b111]
    } else if ch == '2' {
        seq![0b111, 0b001, 0b111, 0b100, 0b111]
    } else if ch == '3' {
        seq![0b111, 0b001, 0b111, 0b001, 0b111]
    } else if ch == '4' {
        seq![0b101, 0b101, 0b111, 0b001, 0b001]
    } else if ch == '5' {
        seq![0b111, 0b100, 0b111, 0b001, 0b111]
    } else if ch == '6' {
        seq![0b111, 0b100, 0b111, 0b101, 0b111]
    } else if ch == '7' {
        seq![0b111, 0b001, 0b010, 0b010, 0b010]
    } else if ch == '8' {
        seq![0b111, 0b101, 0b111, 0b101, 0b111]
    } else if ch == '9' {
        seq![0b111, 0b101, 0b111, 0b001, 0b111]
    } else if ch == '/' {
        seq![0b001, 0b001, 0b010, 0b100, 0b100]
    } else if ch == ':' {
        seq![0b000, 0b010, 0b000, 0b010, 0b000]
    } else {
        seq![0, 0, 0, 0, 0]
    }
}

/// The rows of a character of the block font.
fn glyph_bits(ch: char) -> (bits: [u32; 5])
    ensures
        bits@ == glyph_rows(ch),
{
    let bits: [u32; 5] = match ch {
        'A' => [0b010, 0b101, 0b111, 0b101, 0b101],
        'C' => [0b111, 0b100, 0b100, 0b100, 0b111],
        'D' => [0b110, 0b101, 0b101, 0b101, 0b110],
        'E' => [0b111, 0b100, 0b110, 0b100, 0b111],
        'G' => [0b111, 0b100, 0b101, 0b101, 0b111],
        'I' => [0b111, 0b010, 0b010, 0b010, 0b111],
        'M' => [0b101, 0b111, 0b111, 0b101, 0b101],
        'N' => [0b101, 0b111, 0b111, 0b111, 0b101],
        'O' => [0b111, 0b101, 0b101, 0b101, 0b111],
        'S' => [0b111, 0b100, 0b111, 0b001, 0b111],
        'U' => [0b101, 0b101, 0b101, 0b101, 0b111],
        'V' => [0b101, 0b101, 0b101, 0b101, 0b010],
        '0' => [0b111, 0b101, 0b101, 0b101, 0b111],
        '1' => [0b010, 0b110, 0b010, 0b010, 0b111],
        '2' => [0b111, 0b001, 0b111, 0b100, 0b111],
        '3' => [0b111, 0b001, 0b111, 0b001, 0b111],
        '4' => [0b101, 0b101, 0b111, 0b001, 0b001],
        '5' => [0b111, 0b100, 0b111, 0b001, 0b111],
        '6' => [0b111, 0b100, 0b111, 0b101, 0b111],
        '7' => [0b111, 0b001, 0b010, 0b010, 0b010],
        '8' => [0b111, 0b101, 0b111, 0b101, 0b111],
        '9' => [0b111, 0b101, 0b111, 0b001, 0b111],
        '/' => [0b001, 0b001, 0b010, 0b100, 0b100],
        ':' => [0b000, 0b010, 0b000, 0b010, 0b000],
        _ => [0; 5],
    };
    proof {
        assert(bits@ =~= glyph_rows(ch));
    }
    bits
}

/// The dot in row `row` and column `col` of a character of the block font
/// is drawn.
pub open spec fn glyph_lit(ch: char, row: int, col: int) -> bool {
    &&& 0 <= row < 5
    &&& 0 <= col < 3
    &&& glyph_rows(ch)[row] & (1u32 << ((2 - col) as u32)) != 0
}

/// Pixel `(px, py)` belongs to character `ch` drawn at `(x, y)` with
/// dots `s` pixels square.
pub open spec fn glyph_covers(ch: char, x: int, y: int, s: int, px: int, py: int) -> bool {
    exists|row: int, col: int|
        #[trigger] glyph_lit(ch, row, col) && in_rect(px, py, x + col * s, y + row * s, s, s)
}

/// The pixels of the dots drawn so far: those before (`row`, `col`).
spec fn glyph_prefix(ch: char, x: int, y: int, s: int, row: int, col: int) -> spec_fn(int, int) -> bool {
    |px: int, py: int|
        exists|r: int, c: int|
            #[trigger] glyph_lit(ch, r, c) && (r < row || (r == row && c < col)) && in_rect(
                px,
                py,
                x + c * s,
                y + r * s,
                s,
                s,
            )
}

proof fn lemma_dot_bounds(x: int, y: int, s: int, row: int, col: int)
    requires
        0 <= row < 5,
        0 <= col < 3,
        0 <= s,
    ensures
        0 <= col * s,
        col * s + s <= 3 * s,
        0 <= row * s,
        row * s + s <= 5 * s,
{
    assert(0 <= col * s && col * s + s <= 3 * s) by (nonlinear_arith)
        requires
            0 <= col < 3,
            0 <= s,
    ;
    assert(0 <= row * s && row * s + s <= 5 * s) by (nonlinear_arith)
        requires
            0 <= row < 5,
            0 <= s,
    ;
}

/// Draws character `ch` of the block font at `(x, y)`, each dot a `scale`
/// by `scale` square.
pub fn draw_glyph(fb: &mut Framebuffer, ch: char, x: u32, y: u32, scale: u32, color: Color)
    requires
        old(fb).inv(),
        x + 3 * scale <= u32::MAX,
        y + 5 * scale <= u32::MAX,
    ensures
        final(fb).inv(),
        final(fb)@ == painted(
            old(fb)@,
            |px: int, py: int| glyph_covers(ch, x as int, y as int, scale as int, px, py),
            color,
        ),
{
    let ghost m0 = fb@;
    let ghost (xi, yi, si) = (x as int, y as int, scale as int);
    let glyph = glyph_bits(ch);
    fb.set_current_color(color);
    proof {
        lemma_paint_nothing(m0.rows, glyph_prefix(ch, xi, yi, si, 0, 0), color);
    }
    let mut row: u32 = 0;
    while row < 5
        invariant
            fb.inv(),
            glyph@ == glyph_rows(ch),
            (xi, yi, si) == (x as int, y as int, scale as int),
            x + 3 * scale <= u32::MAX,
            y + 5 * scale <= u32::MAX,
            0 <= row <= 5,
            fb@ == painted(m0, glyph_prefix(ch, xi, yi, si, row as int, 0), color),
        decreases 5 - row,
    {
        let bits = glyph[row as usize];
        let mut column: u32 = 0;
        while column < 3
            invariant
                fb.inv(),
                glyph@ == glyph_rows(ch),
                bits == glyph_rows(ch)[row as int],
                (xi, yi, si) == (x as int, y as int, scale as int),
                x + 3 * scale <= u32::MAX,
                y + 5 * scale <= u32::MAX,
                0 <= row < 5,
                0 <= column <= 3,
                fb@ == painted(m0, glyph_prefix(ch, xi, yi, si, row as int, column as int), color),
            decreases 3 - column,
        {
            let ghost before = fb@;
            proof {
                lemma_dot_bounds(xi, yi, si, row as int, column as int);
            }
            let lit = bits & (1u32 << (2 - column)) != 0;
            if lit {
                draw_rectangle(fb, x + column * scale, y + row * scale, scale, scale, color);
                proof {
                    let a = glyph_prefix(ch, xi, yi, si, row as int, column as int);
                    let b = rect_cover(xi + column * si, yi + row * si, si, si);
                    assert(glyph_lit(ch, row as int, column as int));
                    lemma_paint_union(m0.rows, a, b, color);
                    let n = glyph_prefix(ch, xi, yi, si, row as int, column + 1);
                    assert forall|px: int, py: int| #![trigger n(px, py)] (a(px, py) || b(px, py)) <==> n(px, py) by {
                        if a(px, py) {
                            let (r, c) = choose|r: int, c: int|
                                #[trigger] glyph_lit(ch, r, c) && (r < row || (r == row && c < column)) && in_rect(
                                    px,
                                    py,
                                    xi + c * si,
                                    yi + r * si,
                                    si,
                                    si,
                                );
                            assert(glyph_lit(ch, r, c) && (r < row || (r == row && c < column + 1)));
                        }
                        if b(px, py) {
                            assert(glyph_lit(ch, row as int, column as int));
                        }
                        if n(px, py) {
                            let (r, c) = choose|r: int, c: int|
                                #[trigger] glyph_lit(ch, r, c) && (r < row || (r == row && c < column + 1))
                                    && in_rect(px, py, xi + c * si, yi + r * si, si, si);
                            if r == row && c == column {
                                assert(b(px, py));
                            } else {
                                assert(a(px, py));
                            }
                        }
                    }
                    lemma_paint_same_cover(m0.rows, |px: int, py: int| a(px, py) || b(px, py), n, color);
                }
            } else {
                proof {
                    let a = glyph_prefix(ch, xi, yi, si, row as int, column as int);
                    let n = glyph_prefix(ch, xi, yi, si, row as int, column + 1);
                    assert(!glyph_lit(ch, row as int, column as int));
                    assert forall|px: int, py: int| #![trigger n(px, py)] a(px, py) <==> n(px, py) by {
                        if a(px, py) {
                            let (r, c) = choose|r: int, c: int|
                                #[trigger] glyph_lit(ch, r, c) && (r < row || (r == row && c < column)) && in_rect(
                                    px,
                                    py,
                                    xi + c * si,
                                    yi + r * si,
                                    si,
                                    si,
                                );
                            assert(glyph_lit(ch, r, c) && (r < row || (r == row && c < column + 1)));
                        }
                        if n(px, py) {
                            let (r, c) = choose|r: int, c: int|
                                #[trigger] glyph_lit(ch, r, c) && (r < row || (r == row && c < column + 1))
                                    && in_rect(px, py, xi + c * si, yi + r * si, si, si);
                            assert(!(r == row && c == column));
                        }
                    }
                    lemma_paint_same_cover(m0.rows, a, n, color);
                }
            }
            column += 1;
        }
        proof {
            let a = glyph_prefix(ch, xi, yi, si, row as int, 3);
            let n = glyph_prefix(ch, xi, yi, si, row + 1, 0);
            assert forall|px: int, py: int| #![trigger n(px, py)] a(px, py) <==> n(px, py) by {
                if a(px, py) {
                    let (r, c) = choose|r: int, c: int|
                        #[trigger] glyph_lit(ch, r, c) && (r < row || (r == row && c < 3)) && in_rect(
                            px,
                            py,
                            xi + c * si,
                            yi + r * si,
                            si,
                            si,
                        );
                    assert(glyph_lit(ch, r, c) && (r < row + 1 || (r == row + 1 && c < 0)));
                }
                if n(px, py) {
                    let (r, c) = choose|r: int, c: int|
                        #[trigger] glyph_lit(ch, r, c) && (r < row + 1 || (r == row + 1 && c < 0)) && in_rect(
                            px,
                            py,
                            xi + c * si,
                            yi + r * si,
                            si,
                            si,
                        );
                    assert(glyph_lit(ch, r, c) && (r < row || (r == row && c < 3)));
                }
            }
            lemma_paint_same_cover(m0.rows, a, n, color);
        }
        row += 1;
    }
    proof {
        let a = glyph_prefix(ch, xi, yi, si, 5, 0);
        let n = |px: int, py: int| glyph_covers(ch, xi, yi, si, px, py);
        assert forall|px: int, py: int| #![trigger n(px, py)] a(px, py) <==> n(px, py) by {
            if n(px, py) {
                let (r, c) = choose|r: int, c: int|
                    #[trigger] glyph_lit(ch, r, c) && in_rect(px, py, xi + c * si, yi + r * si, si, si);
                assert(glyph_lit(ch, r, c) && (r < 5 || (r == 5 && c < 0)));
            }
        }
        lemma_paint_same_cover(m0.rows, a, n, color);
    }
}

/// Pixel `(px, py)` belongs to `text` drawn at `(x, y)`: character `i`
/// is drawn `4 * s * i` pixels to the right.
pub open spec fn text_covers(text: Seq<char>, x: int, y: int, s: int, px: int, py: int) -> bool {
    exists|i: int| 0 <= i < text.len() && #[trigger] glyph_covers(text[i], x + i * 4 * s, y, s, px, py)
}

/// The framebuffer after drawing `text` at `(x, y)` in `color`: unchanged
/// for no text.
pub open spec fn text_drawn(
    m: crate::framebuffer::FrameModel,
    text: Seq<char>,
    x: int,
    y: int,
    s: int,
    color: Color,
) -> crate::framebuffer::FrameModel {
    if text.len() == 0 {
        m
    } else {
        painted(m, |px: int, py: int| text_covers(text, x, y, s, px, py), color)
    }
}

/// Draws `text` in the block font at `(x, y)`, each dot a `scale` by
/// `scale` square, characters four dots apart.
pub fn draw_text(fb: &mut Framebuffer, text: &Vec<char>, x: u32, y: u32, scale: u32, color: Color)
    requires
        old(fb).inv(),
        x + text@.len() * 4 * scale <= u32::MAX,
        text@.len() * 4 <= u32::MAX,
        y + 5 * scale <= u32::MAX,
    ensures
        final(fb).inv(),
        final(fb)@ == text_drawn(old(fb)@, text@, x as int, y as int, scale as int, color),
{
    let ghost m0 = fb@;
    let ghost (xi, yi, si) = (x as int, y as int, scale as int);
    let mut index: usize = 0;
    while index < text.len()
        invariant
            fb.inv(),
            (xi, yi, si) == (x as int, y as int, scale as int),
            x + text@.len() * 4 * scale <= u32::MAX,
            text@.len() * 4 <= u32::MAX,
            y + 5 * scale <= u32::MAX,
            0 <= index <= text@.len(),
            index == 0 ==> fb@ == m0,
            index > 0 ==> fb@ == painted(
                m0,
                |px: int, py: int|
                    exists|i: int|
                        0 <= i < index && #[trigger] glyph_covers(text@[i], xi + i * 4 * si, yi, si, px, py),
                color,
            ),
        decreases text@.len() - index,
    {
        proof {
            assert(index * 4 * si + 4 * si <= text@.len() * 4 * si) by (nonlinear_arith)
                requires
                    index < text@.len(),
                    0 <= si,
            ;
            assert(0 <= index * 4 * si) by (nonlinear_arith)
                requires
                    0 <= index,
                    0 <= si,
            ;
        }
        let offset_x = x + index as u32 * 4 * scale;
        draw_glyph(fb, text[index], offset_x, y, scale, color);
        proof {
            let n = |px: int, py: int|
                exists|i: int|
                    0 <= i < index + 1 && #[trigger] glyph_covers(text@[i], xi + i * 4 * si, yi, si, px, py);
            let b = |px: int, py: int| glyph_covers(text@[index as int], offset_x as int, yi, si, px, py);
            if index == 0 {
                lemma_paint_same_cover(m0.rows, b, n, color);
            } else {
                let a = |px: int, py: int|
                    exists|i: int| 0 <= i < index && #[trigger] glyph_covers(text@[i], xi + i * 4 * si, yi, si, px, py);
                lemma_paint_union(m0.rows, a, b, color);
                assert forall|px: int, py: int| #![trigger n(px, py)] (a(px, py) || b(px, py)) <==> n(px, py) by {
                    if n(px, py) {
                        let i = choose|i: int|
                            0 <= i < index + 1 && #[trigger] glyph_covers(text@[i], xi + i * 4 * si, yi, si, px, py);
                        if i < index {
                            assert(a(px, py));
                        }
                    }
                    if a(px, py) {
                        let i = choose|i: int|
                            0 <= i < index && #[trigger] glyph_covers(text@[i], xi + i * 4 * si, yi, si, px, py);
                        assert(0 <= i < index + 1);
                    }
                    if b(px, py) {
                        assert(glyph_covers(text@[index as int], xi + index * 4 * si, yi, si, px, py));
                    }
                }
                lemma_paint_same_cover(m0.rows, |px: int, py: int| a(px, py) || b(px, py), n, color);
            }
        }
        index += 1;
    }
    proof {
        if text@.len() > 0 {
            lemma_paint_same_cover(
                m0.rows,
                |px: int, py: int|
                    exists|i: int|
                        0 <= i < index && #[trigger] glyph_covers(text@[i], xi + i * 4 * si, yi, si, px, py),
                |px: int, py: int| text_covers(text@, xi, yi, si, px, py),
                color,
            );
        }
    }
}

} // verus!
