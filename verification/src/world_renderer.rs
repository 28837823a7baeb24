//! The parts of the first-person view that do not depend on casting rays:
//! sky, floor and crosshair.
use vstd::prelude::*;
use crate::color::Color;
use crate::draw::{draw_rectangle, rect_cover};
use crate::framebuffer::{lemma_paint_union, lemma_paint_same_cover, lemma_paint_nothing, painted, FrameModel, Framebuffer};
use crate::map_view::{draw_stretched, stretched};
use crate::textures::TextureManager;

verus! {

/// The sky above `horizon` and the floor below it: the sky texture (`'c'`)
/// stretched over the top rows, or sky blue without it, then black below.
pub open spec fn sky_and_floor_drawn(m: FrameModel, tex: TextureManager, horizon: int) -> FrameModel {
    let m1 = match tex.resolved('c') {
        Some(t) => stretched(m, t, 0, 0, m.width as int, horizon),
        None => painted(m, rect_cover(0, 0, m.width as int, horizon), Color::skyblue()),
    };
    painted(m1, rect_cover(0, horizon, m.width as int, m.height - horizon), Color::black())
}

/// Draws the sky above `horizon` and the floor below it.
pub fn draw_sky_and_floor(fb: &mut Framebuffer, textures: &TextureManager, horizon: u32)
    requires
        old(fb).inv(),
    ensures
        final(fb).inv(),
        final(fb)@ == sky_and_floor_drawn(old(fb)@, *textures, horizon as int),
{
    let width = fb.width();
    let height = fb.height();
    match textures.dimensions('c') {
        Some(_) => {
            draw_stretched(fb, textures, 'c', 0, 0, width, horizon);
        },
        None => {
            draw_rectangle(fb, 0, 0, width, horizon, Color::skyblue());
        },
    }
    let ghost m1 = fb@;
    if horizon < height {
        draw_rectangle(fb, 0, horizon, width, height - horizon, Color::black());
    } else {
        fb.set_current_color(Color::black());
        proof {
            lemma_paint_nothing(m1.rows, rect_cover(0, horizon as int, width as int, height - horizon), Color::black());
        }
    }
}

/// The crosshair: a plus sign of arms four pixels long at the centre.
pub open spec fn crosshair_cover(cx: int, cy: int) -> spec_fn(int, int) -> bool {
    |px: int, py: int| (py == cy && cx - 4 <= px <= cx + 4) || (px == cx && cy - 4 <= py <= cy + 4)
}

/// The crosshair is a plus sign centred on its centre: it looks the same
/// turned half round and with its arms swapped, each arm reaches four pixels
/// from the centre and no further, and nothing off the two arms is covered.
pub proof fn lemma_crosshair_shape(cx: int, cy: int, dx: int, dy: int)
    ensures
        crosshair_cover(cx, cy)(cx + dx, cy + dy) == crosshair_cover(cx, cy)(cx - dx, cy - dy),
        crosshair_cover(cx, cy)(cx + dx, cy + dy) == crosshair_cover(cx, cy)(cx + dy, cy + dx),
        -4 <= dx <= 4 ==> crosshair_cover(cx, cy)(cx + dx, cy) && crosshair_cover(cx, cy)(cx, cy + dx),
        (dx > 4 || dx < -4) ==> !crosshair_cover(cx, cy)(cx + dx, cy),
        dx != 0 && dy != 0 ==> !crosshair_cover(cx, cy)(cx + dx, cy + dy),
{
}

/// The crosshair drawn at the centre: yellow right after a shot, white
/// otherwise.
pub open spec fn crosshair_drawn(m: FrameModel, shot_flash: bool) -> FrameModel {
    painted(
        m,
        crosshair_cover((m.width / 2) as int, (m.height / 2) as int),
        if shot_flash {
            Color::yellow()
        } else {
            Color::white()
        },
    )
}

/// Draws the crosshair at the centre of the picture.
pub fn draw_crosshair(fb: &mut Framebuffer, shot_flash: bool)
    requires
        old(fb).inv(),
        old(fb)@.width >= 8,
        old(fb)@.height >= 8,
    ensures
        final(fb).inv(),
        final(fb)@ == crosshair_drawn(old(fb)@, shot_flash),
{
    let ghost m0 = fb@;
    let center_x = fb.width() / 2;
    let center_y = fb.height() / 2;
    let color = if shot_flash {
        Color::yellow()
    } else {
        Color::white()
    };
    fb.set_current_color(color);
    let ghost (cx, cy) = (center_x as int, center_y as int);
    proof {
        lemma_paint_nothing(
            m0.rows,
            |px: int, py: int| (py == cy && cx - 0 < px < cx + 0) || (px == cx && cy - 0 < py < cy + 0),
            color,
        );
    }
    let mut offset: u32 = 0;
    while offset <= 4
        invariant
            fb.inv(),
            (cx, cy) == (center_x as int, center_y as int),
            center_x >= 4,
            center_y >= 4,
            center_x + 4 <= u32::MAX,
            center_y + 4 <= u32::MAX,
            0 <= offset <= 5,
            fb@ == painted(
                m0,
                |px: int, py: int| (py == cy && cx - offset < px < cx + offset) || (px == cx && cy - offset < py < cy
                    + offset),
                color,
            ),
        decreases 5 - offset,
    {
        let left = center_x - offset;
        let right = center_x + offset;
        let up = center_y - offset;
        let down = center_y + offset;
        fb.set_pixel(left, center_y);
        fb.set_pixel(right, center_y);
        fb.set_pixel(center_x, up);
        fb.set_pixel(center_x, down);
        proof {
            let a = |px: int, py: int| (py == cy && cx - offset < px < cx + offset) || (px == cx && cy - offset < py
                < cy + offset);
            let b1 = |px: int, py: int| px == left && py == center_y;
            let b2 = |px: int, py: int| px == right && py == center_y;
            let b3 = |px: int, py: int| px == center_x && py == up;
            let b4 = |px: int, py: int| px == center_x && py == down;
            let a1 = |px: int, py: int| a(px, py) || b1(px, py);
            let a2 = |px: int, py: int| a1(px, py) || b2(px, py);
            let a3 = |px: int, py: int| a2(px, py) || b3(px, py);
            lemma_paint_union(m0.rows, a, b1, color);
            lemma_paint_union(m0.rows, a1, b2, color);
            lemma_paint_union(m0.rows, a2, b3, color);
            lemma_paint_union(m0.rows, a3, b4, color);
            lemma_paint_same_cover(
                m0.rows,
                |px: int, py: int| a3(px, py) || b4(px, py),
                |px: int, py: int| (py == cy && cx - (offset + 1) < px < cx + (offset + 1)) || (px == cx && cy - (offset
                    + 1) < py < cy + (offset + 1)),
                color,
            );
        }
        offset += 1;
    }
    proof {
        lemma_paint_same_cover(
            m0.rows,
            |px: int, py: int| (py == cy && cx - offset < px < cx + offset) || (px == cx && cy - offset < py < cy
                + offset),
            crosshair_cover(cx, cy),
            color,
        );
    }
}

} // verus!
