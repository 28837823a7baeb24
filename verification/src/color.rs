//! Colours, as red, green, blue and alpha bytes.
use vstd::prelude::*;

verus! {

/// A colour: red, green, blue and alpha bytes.
#[derive(Clone, Copy, PartialEq, Eq, Debug, Structural)]
pub struct Color {
    pub r: u8,
    pub g: u8,
    pub b: u8,
    pub a: u8,
}

/// An opaque colour.
pub open spec fn rgb(r: u8, g: u8, b: u8) -> Color {
    Color { r, g, b, a: 255 }
}

impl Color {
    pub open spec fn spec_black() -> Color {
        rgb(0, 0, 0)
    }

    pub open spec fn spec_white() -> Color {
        rgb(255, 255, 255)
    }

    pub open spec fn spec_red() -> Color {
        rgb(255, 0, 0)
    }

    pub open spec fn spec_green() -> Color {
        rgb(0, 128, 0)
    }

    pub open spec fn spec_skyblue() -> Color {
        rgb(135, 206, 235)
    }

    pub open spec fn spec_magenta() -> Color {
        rgb(255, 0, 255)
    }

    pub open spec fn spec_yellow() -> Color {
        rgb(255, 255, 0)
    }

    pub open spec fn spec_orange() -> Color {
        rgb(255, 165, 0)
    }

    pub open spec fn spec_darkgray() -> Color {
        rgb(169, 169, 169)
    }

    /// A colour from its four bytes.
    pub fn new(r: u8, g: u8, b: u8, a: u8) -> (c: Color)
        ensures
            c == (Color { r, g, b, a }),
    {
        Color { r, g, b, a }
    }

    #[verifier::when_used_as_spec(spec_black)]
    pub fn black() -> (c: Color)
        ensures
            c == Self::spec_black(),
    {
        Color { r: 0, g: 0, b: 0, a: 255 }
    }

    #[verifier::when_used_as_spec(spec_white)]
    pub fn white() -> (c: Color)
        ensures
            c == Self::spec_white(),
    {
        Color { r: 255, g: 255, b: 255, a: 255 }
    }

    #[verifier::when_used_as_spec(spec_red)]
    pub fn red() -> (c: Color)
        ensures
            c == Self::spec_red(),
    {
        Color { r: 255, g: 0, b: 0, a: 255 }
    }

    #[verifier::when_used_as_spec(spec_green)]
    pub fn green() -> (c: Color)
        ensures
            c == Self::spec_green(),
    {
        Color { r: 0, g: 128, b: 0, a: 255 }
    }

    #[verifier::when_used_as_spec(spec_skyblue)]
    pub fn skyblue() -> (c: Color)
        ensures
            c == Self::spec_skyblue(),
    {
        Color { r: 135, g: 206, b: 235, a: 255 }
    }

    #[verifier::when_used_as_spec(spec_magenta)]
    pub fn magenta() -> (c: Color)
        ensures
            c == Self::spec_magenta(),
    {
        Color { r: 255, g: 0, b: 255, a: 255 }
    }

    #[verifier::when_used_as_spec(spec_yellow)]
    pub fn yellow() -> (c: Color)
        ensures
            c == Self::spec_yellow(),
    {
        Color { r: 255, g: 255, b: 0, a: 255 }
    }

    #[verifier::when_used_as_spec(spec_orange)]
    pub fn orange() -> (c: Color)
        ensures
            c == Self::spec_orange(),
    {
        Color { r: 255, g: 165, b: 0, a: 255 }
    }

    #[verifier::when_used_as_spec(spec_darkgray)]
    pub fn darkgray() -> (c: Color)
        ensures
            c == Self::spec_darkgray(),
    {
        Color { r: 169, g: 169, b: 169, a: 255 }
    }
}

/// One channel scaled by a tint channel: `c * t / 255`.
pub open spec fn tint_channel(c: u8, t: u8) -> u8 {
    (c as int * t as int / 255) as u8
}

proof fn lemma_tint_bound(c: u8, t: u8)
    ensures
        0 <= c as int * t as int <= 65025,
        0 <= c as int * t as int / 255 <= 255,
{
    assert(0 <= c as int * t as int <= 255 * 255) by (nonlinear_arith)
        requires
            0 <= c <= 255,
            0 <= t <= 255,
    ;
}

/// A colour tinted: each colour channel scaled by the tint's, alpha kept.
pub fn tint_color(color: Color, tint: Color) -> (c: Color)
    ensures
        c == (Color {
            r: tint_channel(color.r, tint.r),
            g: tint_channel(color.g, tint.g),
            b: tint_channel(color.b, tint.b),
            a: color.a,
        }),
{
    proof {
        lemma_tint_bound(color.r, tint.r);
        lemma_tint_bound(color.g, tint.g);
        lemma_tint_bound(color.b, tint.b);
    }
    let r = (color.r as u16 * tint.r as u16 / 255) as u8;
    let g = (color.g as u16 * tint.g as u16 / 255) as u8;
    let b = (color.b as u16 * tint.b as u16 / 255) as u8;
    Color { r, g, b, a: color.a }
}

} // verus!
