//! Textures: pictures looked up by a character, and how maze cells pick
//! theirs.
use vstd::prelude::*;
use crate::color::Color;
use crate::framebuffer::lemma_pixel_index;

verus! {

/// What a texture holds: its size and its rows of pixels.
pub struct TextureModel {
    pub width: nat,
    pub height: nat,
    pub rows: Seq<Seq<Color>>,
}

/// A picture of at least one pixel, used to colour walls and sprites.
pub struct Texture {
    width: u32,
    height: u32,
    pixels: Vec<Color>,
}

impl View for Texture {
    type V = TextureModel;

    closed spec fn view(&self) -> TextureModel {
        TextureModel {
            width: self.width as nat,
            height: self.height as nat,
            rows: Seq::new(
                self.height as nat,
                |y: int| Seq::new(self.width as nat, |x: int| self.pixels@[y * self.width + x]),
            ),
        }
    }
}

impl Texture {
    #[verifier::type_invariant]
    spec fn shaped(self) -> bool {
        &&& self.width >= 1
        &&& self.height >= 1
        &&& self.pixels@.len() == self.width * self.height
    }

    /// A texture from its pixels, row after row; `None` unless there are
    /// `width * height` of them and at least one.
    pub fn from_pixels(width: u32, height: u32, pixels: Vec<Color>) -> (t: Option<Texture>)
        ensures
            (t is Some) == (width >= 1 && height >= 1 && pixels@.len() == width * height),
            t matches Some(t) ==> t@.width == width && t@.height == height && forall|x: int, y: int|
                0 <= x < width && 0 <= y < height ==> #[trigger] t@.rows[y][x] == pixels@[y * width + x],
    {
        assert((width as int) * (height as int) <= 0xffff_ffff * 0xffff_ffff) by (nonlinear_arith)
            requires
                0 <= width <= 0xffff_ffff,
                0 <= height <= 0xffff_ffff,
        ;
        if width >= 1 && height >= 1 && pixels.len() as u64 == (width as u64) * (height as u64) {
            Some(Texture { width, height, pixels })
        } else {
            None
        }
    }

    /// The width in pixels.
    pub fn width(&self) -> (w: u32)
        ensures
            w == self@.width,
            w >= 1,
    {
        proof {
            use_type_invariant(self);
        }
        self.width
    }

    /// The height in pixels.
    pub fn height(&self) -> (h: u32)
        ensures
            h == self@.height,
            h >= 1,
    {
        proof {
            use_type_invariant(self);
        }
        self.height
    }

    /// The colour at `(tx, ty)`, the coordinates held to the picture.
    pub fn pixel_clamped(&self, tx: u32, ty: u32) -> (c: Color)
        ensures
            self@.width >= 1 && self@.height >= 1,
            c == self@.rows[clamp_to(ty as int, self@.height as int)][clamp_to(tx as int, self@.width as int)],
    {
        proof {
            use_type_invariant(self);
        }
        let x = if tx < self.width - 1 {
            tx
        } else {
            self.width - 1
        };
        let y = if ty < self.height - 1 {
            ty
        } else {
            self.height - 1
        };
        proof {
            lemma_pixel_index(self.width as int, self.height as int, x as int, y as int);
        }
        let n = self.pixels.len();
        let i: u64 = (y as u64) * (self.width as u64) + (x as u64);
        self.pixels[i as usize]
    }
}

/// A coordinate held below `size`: at most `size - 1`.
pub open spec fn clamp_to(t: int, size: int) -> int {
    if t < size - 1 {
        t
    } else {
        size - 1
    }
}

/// The textures of a level, each under a character.
pub struct TextureManager {
    entries: Vec<(char, Texture)>,
}

/// The texture under `ch` among `entries`: the first entry with that
/// character.
pub open spec fn lookup(entries: Seq<(char, TextureModel)>, ch: char) -> Option<TextureModel>
    decreases entries.len(),
{
    if entries.len() == 0 {
        None
    } else if entries[0].0 == ch {
        Some(entries[0].1)
    } else {
        lookup(entries.drop_first(), ch)
    }
}

impl TextureManager {
    closed spec fn models(&self) -> Seq<(char, TextureModel)> {
        Seq::new(self.entries@.len(), |i: int| (self.entries@[i].0, self.entries@[i].1@))
    }

    /// The texture under `ch`, if any.
    pub closed spec fn texture(&self, ch: char) -> Option<TextureModel> {
        lookup(self.models(), ch)
    }

    /// The texture used for `ch`: its own, or else the one under `'#'`.
    pub open spec fn resolved(&self, ch: char) -> Option<TextureModel> {
        if self.texture(ch) is Some {
            self.texture(ch)
        } else {
            self.texture('#')
        }
    }

    /// No textures.
    pub fn new() -> (m: TextureManager)
        ensures
            forall|ch: char| m.texture(ch) is None,
    {
        let m = TextureManager { entries: Vec::new() };
        proof {
            assert(m.models().len() == 0);
        }
        m
    }

    proof fn lemma_lookup_index(entries: Seq<(char, TextureModel)>, ch: char, i: int)
        requires
            0 <= i < entries.len(),
            entries[i].0 == ch,
            forall|k: int| 0 <= k < i ==> #[trigger] entries[k].0 != ch,
        ensures
            lookup(entries, ch) == Some(entries[i].1),
        decreases i,
    {
        if i > 0 {
            let rest = entries.drop_first();
            assert forall|k: int| 0 <= k < i - 1 implies #[trigger] rest[k].0 != ch by {
                assert(rest[k] == entries[k + 1]);
            }
            Self::lemma_lookup_index(rest, ch, i - 1);
        }
    }

    proof fn lemma_lookup_none(entries: Seq<(char, TextureModel)>, ch: char)
        requires
            forall|k: int| 0 <= k < entries.len() ==> #[trigger] entries[k].0 != ch,
        ensures
            lookup(entries, ch) is None,
        decreases entries.len(),
    {
        if entries.len() > 0 {
            let rest = entries.drop_first();
            assert forall|k: int| 0 <= k < rest.len() implies #[trigger] rest[k].0 != ch by {
                assert(rest[k] == entries[k + 1]);
            }
            Self::lemma_lookup_none(rest, ch);
        }
    }

    /// The position of the first entry under `ch`.
    fn find(&self, ch: char) -> (i: Option<usize>)
        ensures
            match i {
                Some(i) => i < self.entries@.len() && self.entries@[i as int].0 == ch && self.texture(ch) == Some(
                    self.entries@[i as int].1@,
                ) && forall|k: int| 0 <= k < i ==> #[trigger] self.entries@[k].0 != ch,
                None => self.texture(ch) is None,
            },
    {
        let mut i: usize = 0;
        while i < self.entries.len()
            invariant
                0 <= i <= self.entries@.len(),
                forall|k: int| 0 <= k < i ==> #[trigger] self.entries@[k].0 != ch,
            decreases self.entries@.len() - i,
        {
            if self.entries[i].0 == ch {
                proof {
                    let ms = self.models();
                    assert forall|k: int| 0 <= k < i implies #[trigger] ms[k].0 != ch by {
                        assert(ms[k].0 == self.entries@[k].0);
                    }
                    Self::lemma_lookup_index(ms, ch, i as int);
                }
                return Some(i);
            }
            i += 1;
        }
        proof {
            let ms = self.models();
            assert forall|k: int| 0 <= k < ms.len() implies #[trigger] ms[k].0 != ch by {
                assert(ms[k].0 == self.entries@[k].0);
            }
            Self::lemma_lookup_none(ms, ch);
        }
        None
    }

    /// Puts `texture` under `ch`, replacing any texture there.
    pub fn insert(&mut self, ch: char, texture: Texture)
        ensures
            forall|k: char| #[trigger] final(self).texture(k) == if k == ch {
                Some(texture@)
            } else {
                old(self).texture(k)
            },
    {
        let ghost old_ms = self.models();
        let ghost t = texture@;
        match self.find(ch) {
            Some(i) => {
                self.entries.set(i, (ch, texture));
                proof {
                    let ms = self.models();
                    assert(ms =~= old_ms.update(i as int, (ch, t)));
                    assert forall|j: int| 0 <= j < i implies #[trigger] old_ms[j].0 != ch by {
                        assert(old_ms[j].0 == old(self).entries@[j].0);
                    }
                    assert forall|k: char| #[trigger] self.texture(k) == if k == ch {
                        Some(t)
                    } else {
                        old(self).texture(k)
                    } by {
                        Self::lemma_lookup_update(old_ms, i as int, ch, t, k);
                    }
                }
            },
            None => {
                self.entries.push((ch, texture));
                proof {
                    let ms = self.models();
                    assert(ms =~= old_ms.push((ch, t)));
                    assert forall|k: char| #[trigger] self.texture(k) == if k == ch {
                        Some(t)
                    } else {
                        old(self).texture(k)
                    } by {
                        Self::lemma_lookup_push(old_ms, ch, t, k);
                    }
                }
            },
        }
    }

    proof fn lemma_lookup_update(entries: Seq<(char, TextureModel)>, i: int, ch: char, t: TextureModel, k: char)
        requires
            0 <= i < entries.len(),
            entries[i].0 == ch,
            forall|j: int| 0 <= j < i ==> #[trigger] entries[j].0 != ch,
        ensures
            lookup(entries.update(i, (ch, t)), k) == if k == ch {
                Some(t)
            } else {
                lookup(entries, k)
            },
        decreases entries.len(),
    {
        let u = entries.update(i, (ch, t));
        if i == 0 {
            assert(u.drop_first() =~= entries.drop_first());
            assert(u[0] == (ch, t));
        } else {
            let rest = entries.drop_first();
            assert(u.drop_first() =~= rest.update(i - 1, (ch, t)));
            assert(u[0] == entries[0]);
            assert(entries[0].0 != ch);
            assert forall|j: int| 0 <= j < i - 1 implies #[trigger] rest[j].0 != ch by {
                assert(rest[j] == entries[j + 1]);
            }
            Self::lemma_lookup_update(rest, i - 1, ch, t, k);
        }
    }

    proof fn lemma_lookup_push(entries: Seq<(char, TextureModel)>, ch: char, t: TextureModel, k: char)
        requires
            lookup(entries, ch) is None,
        ensures
            lookup(entries.push((ch, t)), k) == if k == ch {
                Some(t)
            } else {
                lookup(entries, k)
            },
        decreases entries.len(),
    {
        let u = entries.push((ch, t));
        if entries.len() > 0 {
            assert(u.drop_first() =~= entries.drop_first().push((ch, t)));
            assert(u[0] == entries[0]);
            assert(entries[0].0 != ch);
            Self::lemma_lookup_push(entries.drop_first(), ch, t, k);
        } else {
            assert(u.drop_first() =~= Seq::<(char, TextureModel)>::empty());
            assert(u[0] == (ch, t));
            assert(lookup(u.drop_first(), k) is None);
        }
    }

    /// The texture used for `ch`: its own, or else the one under `'#'`.
    fn resolve(&self, ch: char) -> (i: Option<usize>)
        ensures
            match i {
                Some(i) => i < self.entries@.len() && self.resolved(ch) == Some(self.entries@[i as int].1@),
                None => self.resolved(ch) is None,
            },
    {
        match self.find(ch) {
            Some(i) => Some(i),
            None => self.find('#'),
        }
    }

    /// The colour of the texture used for `ch` at `(tx, ty)`, the
    /// coordinates held to the texture; white without a texture.
    pub fn get_pixel_color(&self, ch: char, tx: u32, ty: u32) -> (c: Color)
        ensures
            c == match self.resolved(ch) {
                Some(t) => t.rows[clamp_to(ty as int, t.height as int)][clamp_to(tx as int, t.width as int)],
                None => Color::white(),
            },
    {
        match self.resolve(ch) {
            Some(i) => self.entries[i].1.pixel_clamped(tx, ty),
            None => Color::white(),
        }
    }

    /// The size of the texture used for `ch`.
    pub fn dimensions(&self, ch: char) -> (d: Option<(u32, u32)>)
        ensures
            match self.resolved(ch) {
                Some(t) => d == Some((t.width as u32, t.height as u32)) && t.width >= 1 && t.height >= 1
                    && t.width <= u32::MAX && t.height <= u32::MAX,
                None => d is None,
            },
    {
        match self.resolve(ch) {
            Some(i) => Some((self.entries[i].1.width(), self.entries[i].1.height())),
            None => None,
        }
    }

    /// The colour of the texture of maze cell `ch` at `(cell_x, cell_y)`.
    pub fn get_cell_pixel_color(&self, ch: char, cell_x: usize, cell_y: usize, tx: u32, ty: u32) -> (c: Color)
        ensures
            c == match self.resolved(cell_texture_key(ch, cell_x as int, cell_y as int)) {
                Some(t) => t.rows[clamp_to(ty as int, t.height as int)][clamp_to(tx as int, t.width as int)],
                None => Color::white(),
            },
    {
        self.get_pixel_color(texture_key(ch, cell_x, cell_y), tx, ty)
    }

    /// The size of the texture of maze cell `ch` at `(cell_x, cell_y)`.
    pub fn cell_dimensions(&self, ch: char, cell_x: usize, cell_y: usize) -> (d: Option<(u32, u32)>)
        ensures
            match self.resolved(cell_texture_key(ch, cell_x as int, cell_y as int)) {
                Some(t) => d == Some((t.width as u32, t.height as u32)) && t.width >= 1 && t.height >= 1
                    && t.width <= u32::MAX && t.height <= u32::MAX,
                None => d is None,
            },
    {
        self.dimensions(texture_key(ch, cell_x, cell_y))
    }
}

/// The characters that draw walls.
pub open spec fn is_wall_char(ch: char) -> bool {
    ch == '+' || ch == '-' || ch == '|' || ch == 'D' || ch == '#'
}

/// The texture a maze cell uses: walls alternate between `'#'` and `'w'`
/// like a checkerboard; any other cell uses its own character.
pub open spec fn cell_texture_key(ch: char, cell_x: int, cell_y: int) -> char {
    if is_wall_char(ch) {
        if (cell_x + cell_y) % 2 == 0 {
            '#'
        } else {
            'w'
        }
    } else {
        ch
    }
}

/// Walls side by side, in a row or in a column, never use the same texture.
pub proof fn lemma_walls_alternate(a: char, b: char, x: int, y: int)
    requires
        is_wall_char(a),
        is_wall_char(b),
        x >= 0,
        y >= 0,
    ensures
        cell_texture_key(a, x, y) != cell_texture_key(b, x + 1, y),
        cell_texture_key(a, x, y) != cell_texture_key(b, x, y + 1),
        cell_texture_key(a, x, y) == '#' || cell_texture_key(a, x, y) == 'w',
{
}

/// The texture a maze cell uses.
pub fn texture_key(ch: char, cell_x: usize, cell_y: usize) -> (key: char)
    ensures
        key == cell_texture_key(ch, cell_x as int, cell_y as int),
{
    if ch == '+' || ch == '-' || ch == '|' || ch == 'D' || ch == '#' {
        if cell_x % 2 == cell_y % 2 {
            '#'
        } else {
            'w'
        }
    } else {
        ch
    }
}

/// The texture files of a level: walls, sky, pickups, the dragon ball of
/// the level, the goal, enemies and projectiles, each under its character.
pub fn texture_files(level: usize) -> (files: Vec<(char, &'static str)>)
    ensures
        files@.len() == 10,
        files@[0].0 == '#' && files@[0].1@ == "assets/deadline.png"@,
        files@[1].0 == 'w' && files@[1].1@ == "assets/nivel1.png"@,
        files@[2].0 == 'c' && files@[2].1@ == "assets/sky.png"@,
        files@[3].0 == 'h' && files@[3].1@ == "assets/hermitaño.png"@,
        files@[4].0 == 'a' && files@[4].1@ == "assets/ki.png"@,
        files@[5].0 == 'x' && files@[5].1@ == (if level == 0 {
            "assets/sphere1.png"@
        } else if level == 1 {
            "assets/sphere2.png"@
        } else {
            "assets/sphere3.png"@
        }),
        files@[6].0 == 'g' && files@[6].1@ == "assets/porunga.png"@,
        files@[7].0 == 'e' && files@[7].1@ == "assets/frieza.png"@,
        files@[8].0 == 'p' && files@[8].1@ == "assets/ki blast.png"@,
        files@[9].0 == 'b' && files@[9].1@ == "assets/jiren.png"@,
{
    let sphere_path = if level == 0 {
        "assets/sphere1.png"
    } else if level == 1 {
        "assets/sphere2.png"
    } else {
        "assets/sphere3.png"
    };
    let mut files: Vec<(char, &'static str)> = Vec::new();
    files.push(('#', "assets/deadline.png"));
    files.push(('w', "assets/nivel1.png"));
    files.push(('c', "assets/sky.png"));
    files.push(('h', "assets/hermitaño.png"));
    files.push(('a', "assets/ki.png"));
    files.push(('x', sphere_path));
    files.push(('g', "assets/porunga.png"));
    files.push(('e', "assets/frieza.png"));
    files.push(('p', "assets/ki blast.png"));
    files.push(('b', "assets/jiren.png"));
    files
}

} // verus!
