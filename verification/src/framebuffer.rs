//! A framebuffer: a picture of `width` by `height` pixels, a background
//! colour to clear it with, and a current colour to draw with.
use vstd::prelude::*;
use crate::color::Color;

verus! {

/// What a framebuffer holds: its size, its rows of pixels (row `y`, pixel
/// `x` at `rows[y][x]`), its background colour and its current colour.
pub struct FrameModel {
    pub width: nat,
    pub height: nat,
    pub rows: Seq<Seq<Color>>,
    pub background: Color,
    pub current: Color,
}

/// The rows hold `height` rows of `width` pixels.
pub open spec fn well_shaped(m: FrameModel) -> bool {
    &&& m.rows.len() == m.height
    &&& forall|y: int| 0 <= y < m.rows.len() ==> #[trigger] m.rows[y].len() == m.width
}

/// A picture of `width` by `height` pixels, all of one colour.
pub open spec fn filled(width: nat, height: nat, color: Color) -> Seq<Seq<Color>> {
    Seq::new(height, |y: int| Seq::new(width, |x: int| color))
}

/// The picture with every pixel `(x, y)` for which `covered(x, y)` holds set
/// to `color`; pixels outside the picture are not there to be set.
pub open spec fn paint_where(rows: Seq<Seq<Color>>, covered: spec_fn(int, int) -> bool, color: Color) -> Seq<
    Seq<Color>,
> {
    Seq::new(
        rows.len(),
        |y: int|
            Seq::new(
                rows[y].len(),
                |x: int|
                    if covered(x, y) {
                        color
                    } else {
                        rows[y][x]
                    },
            ),
    )
}

/// The picture with every pixel `(x, y)` for which `covered(x, y)` holds set
/// to `color_at(x, y)`.
pub open spec fn paint_with(
    rows: Seq<Seq<Color>>,
    covered: spec_fn(int, int) -> bool,
    color_at: spec_fn(int, int) -> Color,
) -> Seq<Seq<Color>> {
    Seq::new(
        rows.len(),
        |y: int|
            Seq::new(
                rows[y].len(),
                |x: int|
                    if covered(x, y) {
                        color_at(x, y)
                    } else {
                        rows[y][x]
                    },
            ),
    )
}

/// Painting pixel after pixel with the colours of one colouring paints
/// their union.
pub proof fn lemma_paint_with_point(
    rows: Seq<Seq<Color>>,
    a: spec_fn(int, int) -> bool,
    color_at: spec_fn(int, int) -> Color,
    x: int,
    y: int,
)
    ensures
        paint_where(paint_with(rows, a, color_at), |px: int, py: int| px == x && py == y, color_at(x, y))
            == paint_with(rows, |px: int, py: int| a(px, py) || (px == x && py == y), color_at),
{
    assert(paint_where(paint_with(rows, a, color_at), |px: int, py: int| px == x && py == y, color_at(x, y))
        =~~= paint_with(rows, |px: int, py: int| a(px, py) || (px == x && py == y), color_at));
}

/// Painting with a colouring only depends on which pixels are covered.
pub proof fn lemma_paint_with_same_cover(
    rows: Seq<Seq<Color>>,
    a: spec_fn(int, int) -> bool,
    b: spec_fn(int, int) -> bool,
    color_at: spec_fn(int, int) -> Color,
)
    requires
        forall|x: int, y: int|
            #![trigger a(x, y)]
            #![trigger b(x, y)]
            0 <= y < rows.len() && 0 <= x < rows[y].len() ==> (a(x, y) <==> b(x, y)),
    ensures
        paint_with(rows, a, color_at) == paint_with(rows, b, color_at),
{
    assert(paint_with(rows, a, color_at) =~~= paint_with(rows, b, color_at));
}

/// Painting with a colouring no pixel changes nothing.
pub proof fn lemma_paint_with_nothing(rows: Seq<Seq<Color>>, a: spec_fn(int, int) -> bool, color_at: spec_fn(int, int) -> Color)
    requires
        forall|x: int, y: int| 0 <= y < rows.len() && 0 <= x < rows[y].len() ==> !#[trigger] a(x, y),
    ensures
        paint_with(rows, a, color_at) == rows,
{
    assert(paint_with(rows, a, color_at) =~~= rows);
}

/// The framebuffer after drawing, in `color`, the pixels `covered` picks.
pub open spec fn painted(m: FrameModel, covered: spec_fn(int, int) -> bool, color: Color) -> FrameModel {
    FrameModel { rows: paint_where(m.rows, covered, color), current: color, ..m }
}

/// Painting one set of pixels and then another in the same colour paints
/// their union.
pub proof fn lemma_paint_union(
    rows: Seq<Seq<Color>>,
    a: spec_fn(int, int) -> bool,
    b: spec_fn(int, int) -> bool,
    color: Color,
)
    ensures
        paint_where(paint_where(rows, a, color), b, color) == paint_where(
            rows,
            |x: int, y: int| a(x, y) || b(x, y),
            color,
        ),
{
    assert(paint_where(paint_where(rows, a, color), b, color) =~~= paint_where(
        rows,
        |x: int, y: int| a(x, y) || b(x, y),
        color,
    ));
}

/// Painting only depends on which pixels are covered.
pub proof fn lemma_paint_same_cover(
    rows: Seq<Seq<Color>>,
    a: spec_fn(int, int) -> bool,
    b: spec_fn(int, int) -> bool,
    color: Color,
)
    requires
        forall|x: int, y: int|
            #![trigger a(x, y)]
            #![trigger b(x, y)]
            0 <= y < rows.len() && 0 <= x < rows[y].len() ==> (a(x, y) <==> b(x, y)),
    ensures
        paint_where(rows, a, color) == paint_where(rows, b, color),
{
    assert(paint_where(rows, a, color) =~~= paint_where(rows, b, color));
}

/// Painting no pixel changes nothing.
pub proof fn lemma_paint_nothing(rows: Seq<Seq<Color>>, a: spec_fn(int, int) -> bool, color: Color)
    requires
        forall|x: int, y: int| 0 <= y < rows.len() && 0 <= x < rows[y].len() ==> !#[trigger] a(x, y),
    ensures
        paint_where(rows, a, color) == rows,
{
    assert(paint_where(rows, a, color) =~~= rows);
}

/// Drawing keeps the picture's size and colours: painting changes only
/// the pixels it covers, each to the colour drawn with, and never a pixel
/// outside the picture.
pub proof fn lemma_painted_pixels(m: FrameModel, covered: spec_fn(int, int) -> bool, color: Color)
    requires
        well_shaped(m),
    ensures
        well_shaped(painted(m, covered, color)),
        painted(m, covered, color).width == m.width,
        painted(m, covered, color).height == m.height,
        painted(m, covered, color).background == m.background,
        painted(m, covered, color).current == color,
        forall|x: int, y: int|
            0 <= x < m.width && 0 <= y < m.height ==> #[trigger] painted(m, covered, color).rows[y][x] == if covered(
                x,
                y,
            ) {
                color
            } else {
                m.rows[y][x]
            },
{
}

/// The bytes of one row of pixels: red, green, blue and alpha of each pixel.
pub open spec fn rgba_row(row: Seq<Color>) -> Seq<u8>
    decreases row.len(),
{
    if row.len() == 0 {
        Seq::empty()
    } else {
        let c = row.last();
        rgba_row(row.drop_last()) + seq![c.r, c.g, c.b, c.a]
    }
}

/// The bytes of a picture, row after row.
pub open spec fn rgba_rows(rows: Seq<Seq<Color>>) -> Seq<u8>
    decreases rows.len(),
{
    if rows.len() == 0 {
        Seq::empty()
    } else {
        rgba_rows(rows.drop_last()) + rgba_row(rows.last())
    }
}

/// `y * width + x` lies inside a picture of `width` by `height` pixels,
/// and different pixels have different positions.
pub proof fn lemma_pixel_index(width: int, height: int, x: int, y: int)
    requires
        0 <= x < width,
        0 <= y < height,
    ensures
        0 <= y * width + x < width * height,
        forall|x2: int, y2: int|
            0 <= x2 < width && 0 <= y2 < height && #[trigger] (y2 * width + x2) == y * width + x ==> x2 == x
                && y2 == y,
{
    assert(0 <= y * width + x < width * height) by (nonlinear_arith)
        requires
            0 <= x < width,
            0 <= y < height,
    ;
    assert forall|x2: int, y2: int|
        0 <= x2 < width && 0 <= y2 < height && #[trigger] (y2 * width + x2) == y * width + x implies x2 == x
            && y2 == y by {
        if y2 < y {
            assert(y2 * width + x2 < y * width + x) by (nonlinear_arith)
                requires
                    y2 < y,
                    0 <= x2 < width,
                    0 <= x,
            ;
        } else if y2 > y {
            assert(y2 * width + x2 > y * width + x) by (nonlinear_arith)
                requires
                    y2 > y,
                    0 <= x < width,
                    0 <= x2,
            ;
        }
    }
}

/// A picture to draw into, with the colour it is cleared with and the
/// colour it draws with.
pub struct Framebuffer {
    width: u32,
    height: u32,
    pixels: Vec<Color>,
    background_color: Color,
    current_color: Color,
}

impl View for Framebuffer {
    type V = FrameModel;

    closed spec fn view(&self) -> FrameModel {
        FrameModel {
            width: self.width as nat,
            height: self.height as nat,
            rows: Seq::new(
                self.height as nat,
                |y: int| Seq::new(self.width as nat, |x: int| self.pixels@[y * self.width + x]),
            ),
            background: self.background_color,
            current: self.current_color,
        }
    }
}

impl Framebuffer {
    /// The pixel store holds one pixel per position of the picture.
    pub closed spec fn inv(&self) -> bool {
        self.pixels@.len() == self.width * self.height
    }

    /// A framebuffer of `width` by `height` pixels, all of the background
    /// colour, drawing in white.
    pub fn new(width: u32, height: u32, background_color: Color) -> (fb: Framebuffer)
        ensures
            fb@ == (FrameModel {
                width: width as nat,
                height: height as nat,
                rows: filled(width as nat, height as nat, background_color),
                background: background_color,
                current: Color::white(),
            }),
            well_shaped(fb@),
            fb.inv(),
    {
        let pixels = Self::filled_pixels(width, height, background_color);
        let fb = Framebuffer { width, height, pixels, background_color, current_color: Color::white() };
        proof {
            assert forall|y: int, x: int| 0 <= y < height && 0 <= x < width implies #[trigger] fb@.rows[y][x]
                == background_color by {
                lemma_pixel_index(width as int, height as int, x, y);
            }
            assert(fb@.rows =~~= filled(width as nat, height as nat, background_color));
        }
        fb
    }

    fn filled_pixels(width: u32, height: u32, color: Color) -> (pixels: Vec<Color>)
        ensures
            pixels@.len() == width * height,
            forall|i: int| 0 <= i < pixels@.len() ==> #[trigger] pixels@[i] == color,
    {
        assert((width as int) * (height as int) <= 0xffff_ffff * 0xffff_ffff) by (nonlinear_arith)
            requires
                0 <= width <= 0xffff_ffff,
                0 <= height <= 0xffff_ffff,
        ;
        let count: u64 = (width as u64) * (height as u64);
        let mut pixels: Vec<Color> = Vec::new();
        let mut i: u64 = 0;
        while i < count
            invariant
                count == width * height,
                0 <= i <= count,
                pixels@.len() == i,
                forall|k: int| 0 <= k < i ==> #[trigger] pixels@[k] == color,
            decreases count - i,
        {
            pixels.push(color);
            i += 1;
        }
        pixels
    }

    /// The width in pixels.
    pub fn width(&self) -> (w: u32)
        requires
            self.inv(),
        ensures
            w == self@.width,
            well_shaped(self@),
    {
        self.width
    }

    /// The height in pixels.
    pub fn height(&self) -> (h: u32)
        requires
            self.inv(),
        ensures
            h == self@.height,
            well_shaped(self@),
    {
        self.height
    }

    /// The colour drawing uses.
    pub fn current_color(&self) -> (c: Color)
        ensures
            c == self@.current,
    {
        self.current_color
    }

    /// The position of pixel `(x, y)` in the pixel store.
    fn index_of(&self, x: u32, y: u32) -> (i: usize)
        requires
            self.inv(),
            x < self.width,
            y < self.height,
        ensures
            i == y * self.width + x,
            i < self.pixels@.len(),
    {
        proof {
            lemma_pixel_index(self.width as int, self.height as int, x as int, y as int);
        }
        let n = self.pixels.len();
        let i: u64 = (y as u64) * (self.width as u64) + (x as u64);
        i as usize
    }

    /// The colour of pixel `(x, y)`, if the picture has it.
    pub fn get_pixel(&self, x: u32, y: u32) -> (c: Option<Color>)
        requires
            self.inv(),
        ensures
            c == (if x < self@.width && y < self@.height {
                Some(self@.rows[y as int][x as int])
            } else {
                None
            }),
    {
        if x < self.width && y < self.height {
            let i = self.index_of(x, y);
            Some(self.pixels[i])
        } else {
            None
        }
    }

    /// Clears the picture to the background colour.
    pub fn clear(&mut self)
        requires
            old(self).inv(),
        ensures
            final(self).inv(),
            final(self)@ == (FrameModel {
                rows: filled(old(self)@.width, old(self)@.height, old(self)@.background),
                ..old(self)@
            }),
    {
        let pixels = Self::filled_pixels(self.width, self.height, self.background_color);
        self.pixels = pixels;
        proof {
            assert forall|y: int, x: int|
                0 <= y < self.height && 0 <= x < self.width implies #[trigger] self@.rows[y][x]
                == self.background_color by {
                lemma_pixel_index(self.width as int, self.height as int, x, y);
            }
            assert(self@.rows =~~= filled(old(self)@.width, old(self)@.height, old(self)@.background));
        }
    }

    /// Draws pixel `(x, y)` in the current colour; a pixel outside the
    /// picture is left alone.
    pub fn set_pixel(&mut self, x: u32, y: u32)
        requires
            old(self).inv(),
        ensures
            final(self).inv(),
            final(self)@ == painted(old(self)@, |px: int, py: int| px == x && py == y, old(self)@.current),
    {
        let ghost old_rows = self@.rows;
        if x < self.width && y < self.height {
            let i = self.index_of(x, y);
            let c = self.current_color;
            self.pixels.set(i, c);
            proof {
                assert forall|py: int, px: int|
                    0 <= py < self.height && 0 <= px < self.width implies #[trigger] self@.rows[py][px] == (if px
                    == x && py == y {
                    c
                } else {
                    old_rows[py][px]
                }) by {
                    lemma_pixel_index(self.width as int, self.height as int, px, py);
                    lemma_pixel_index(self.width as int, self.height as int, x as int, y as int);
                }
            }
        }
        proof {
            assert(self@.rows =~~= paint_where(old_rows, |px: int, py: int| px == x && py == y, old(self)@.current));
        }
    }

    /// Sets the colour drawing uses.
    pub fn set_current_color(&mut self, color: Color)
        requires
            old(self).inv(),
        ensures
            final(self).inv(),
            final(self)@ == (FrameModel { current: color, ..old(self)@ }),
    {
        self.current_color = color;
    }

    /// The picture as bytes, row after row, four per pixel: red, green, blue
    /// and alpha.
    pub fn rgba_bytes(&self) -> (bytes: Vec<u8>)
        requires
            self.inv(),
        ensures
            bytes@ == rgba_rows(self@.rows),
    {
        let ghost rows = self@.rows;
        let mut bytes: Vec<u8> = Vec::new();
        let mut y: u32 = 0;
        while y < self.height
            invariant
                self.inv(),
                rows == self@.rows,
                rows.len() == self.height,
                0 <= y <= self.height,
                bytes@ == rgba_rows(rows.take(y as int)),
            decreases self.height - y,
        {
            let mut x: u32 = 0;
            let ghost row = rows[y as int];
            while x < self.width
                invariant
                    self.inv(),
                    rows == self@.rows,
                    rows.len() == self.height,
                    0 <= y < self.height,
                    row == rows[y as int],
                    row.len() == self.width,
                    0 <= x <= self.width,
                    bytes@ == rgba_rows(rows.take(y as int)) + rgba_row(row.take(x as int)),
                decreases self.width - x,
            {
                let i = self.index_of(x, y);
                let c = self.pixels[i];
                assert(c == row[x as int]);
                bytes.push(c.r);
                bytes.push(c.g);
                bytes.push(c.b);
                bytes.push(c.a);
                proof {
                    assert(row.take(x + 1).drop_last() =~= row.take(x as int));
                    assert(row.take(x + 1).last() == c);
                    assert(bytes@ =~= rgba_rows(rows.take(y as int)) + rgba_row(row.take(x + 1)));
                }
                x += 1;
            }
            proof {
                assert(row.take(x as int) =~= row);
                assert(rows.take(y + 1).drop_last() =~= rows.take(y as int));
                assert(rows.take(y + 1).last() == rows[y as int]);
            }
            y += 1;
        }
        proof {
            assert(rows.take(y as int) =~= rows);
        }
        bytes
    }
}

} // verus!
