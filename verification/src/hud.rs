//! The heads-up display: health and ammunition bars and the number of
//! enemies left.
use vstd::prelude::*;
use crate::color::Color;
use crate::draw::{draw_outline, draw_rectangle, draw_text, outline_cover, rect_cover, text_drawn};
use crate::framebuffer::{painted, FrameModel, Framebuffer};

verus! {

/// The character of a decimal digit.
pub open spec fn digit_char(d: int) -> char {
    if d == 0 {
        '0'
    } else if d == 1 {
        '1'
    } else if d == 2 {
        '2'
    } else if d == 3 {
        '3'
    } else if d == 4 {
        '4'
    } else if d == 5 {
        '5'
    } else if d == 6 {
        '6'
    } else if d == 7 {
        '7'
    } else if d == 8 {
        '8'
    } else {
        '9'
    }
}

/// The decimal digits of `n`, most significant first.
pub open spec fn decimal(n: nat) -> Seq<char>
    decreases n,
{
    if n < 10 {
        seq![digit_char(n as int)]
    } else {
        decimal(n / 10).push(digit_char((n % 10) as int))
    }
}

/// The number that a text of decimal digits reads as, each character taken
/// by its distance from `'0'` in the character set.
pub open spec fn digits_value(s: Seq<char>) -> int
    decreases s.len(),
{
    if s.len() == 0 {
        0
    } else {
        10 * digits_value(s.drop_last()) + (s.last() as u32 - '0' as u32)
    }
}

/// The digits of a number read back as the number: each is an ASCII digit
/// from `'0'` to `'9'`, and there is no leading zero but for zero itself.
pub proof fn lemma_decimal_reads_back(n: nat)
    ensures
        digits_value(decimal(n)) == n,
        forall|i: int| 0 <= i < decimal(n).len() ==> '0' <= #[trigger] decimal(n)[i] <= '9',
        decimal(n)[0] == '0' ==> n == 0,
    decreases n,
{
    let d = n % 10;
    assert(digit_char(d as int) as u32 - '0' as u32 == d) by {
        assert('0' as u32 == 48 && '1' as u32 == 49 && '2' as u32 == 50 && '3' as u32 == 51 && '4' as u32 == 52);
        assert('5' as u32 == 53 && '6' as u32 == 54 && '7' as u32 == 55 && '8' as u32 == 56 && '9' as u32 == 57);
    }
    if n >= 10 {
        lemma_decimal_reads_back(n / 10);
        let s = decimal(n);
        assert(s.drop_last() =~= decimal(n / 10));
        assert forall|i: int| 0 <= i < s.len() implies '0' <= #[trigger] s[i] <= '9' by {
            if i < s.len() - 1 {
                assert(s[i] == decimal(n / 10)[i]);
            }
        }
        assert(s[0] == decimal(n / 10)[0]);
        assert(s.last() == digit_char(d as int));
        assert(10 * (n / 10) + n % 10 == n);
        assert(digits_value(s) == 10 * digits_value(s.drop_last()) + (s.last() as u32 - '0' as u32));
    } else {
        assert(decimal(n).drop_last() =~= Seq::<char>::empty());
        assert(d == n);
        assert(digits_value(decimal(n)) == 10 * digits_value(decimal(n).drop_last()) + (decimal(n).last() as u32
            - '0' as u32));
    }
}

/// Ten to the power `k`.
pub open spec fn pow10(k: nat) -> nat
    decreases k,
{
    if k == 0 {
        1
    } else {
        10 * pow10((k - 1) as nat)
    }
}

/// A number below `10^k` has at most `k` digits.
pub proof fn lemma_decimal_len(n: nat, k: nat)
    requires
        k >= 1,
        n < pow10(k),
    ensures
        1 <= decimal(n).len() <= k,
    decreases n,
{
    if n >= 10 {
        if k == 1 {
            assert(pow10(1) == 10 * pow10(0));
        } else {
            assert(pow10(k) == 10 * pow10((k - 1) as nat));
            lemma_decimal_len(n / 10, (k - 1) as nat);
        }
    }
}

proof fn lemma_u64_digits(n: u64)
    ensures
        1 <= decimal(n as nat).len() <= 20,
{
    reveal_with_fuel(pow10, 21);
    assert(pow10(20) == 100_000_000_000_000_000_000);
    lemma_decimal_len(n as nat, 20);
}

/// The decimal digits of `n`.
pub fn decimal_chars(n: u64) -> (digits: Vec<char>)
    ensures
        digits@ == decimal(n as nat),
        1 <= digits@.len() <= 20,
    decreases n,
{
    proof {
        lemma_u64_digits(n);
    }
    let d = n % 10;
    let c = if d == 0 {
        '0'
    } else if d == 1 {
        '1'
    } else if d == 2 {
        '2'
    } else if d == 3 {
        '3'
    } else if d == 4 {
        '4'
    } else if d == 5 {
        '5'
    } else if d == 6 {
        '6'
    } else if d == 7 {
        '7'
    } else if d == 8 {
        '8'
    } else {
        '9'
    };
    if n < 10 {
        let mut digits: Vec<char> = Vec::new();
        digits.push(c);
        proof {
            assert(digits@ =~= decimal(n as nat));
        }
        digits
    } else {
        let mut digits = decimal_chars(n / 10);
        digits.push(c);
        digits
    }
}

/// The width of a status bar, in pixels.
pub const BAR_WIDTH: u32 = 170;

/// How much of a status bar is filled: the value, kept between zero and the
/// maximum, in proportion to the maximum.
pub open spec fn bar_fill(value: int, maximum: int) -> int {
    let kept = if value < 0 {
        0
    } else if value > maximum {
        maximum
    } else {
        value
    };
    kept * BAR_WIDTH / maximum
}

/// A status bar's maximum: at least one.
pub open spec fn bar_maximum(maximum: int) -> int {
    if maximum < 1 {
        1
    } else {
        maximum
    }
}

/// The text of a status bar: the value (at least zero), a slash, and the
/// maximum.
pub open spec fn bar_text(value: int, maximum: int) -> Seq<char> {
    decimal((if value < 0 {
        0
    } else {
        value
    }) as nat) + seq!['/'] + decimal(maximum as nat)
}

/// The filled part of a status bar never leaves the bar: it is empty at
/// zero or below, full at the maximum or above, and grows with the value.
pub proof fn lemma_bar_fill_within_bar(value: int, larger: int, maximum: int)
    requires
        value <= larger,
    ensures
        0 <= bar_fill(value, bar_maximum(maximum)) <= bar_fill(larger, bar_maximum(maximum)) <= BAR_WIDTH,
        value <= 0 ==> bar_fill(value, bar_maximum(maximum)) == 0,
        larger >= bar_maximum(maximum) ==> bar_fill(larger, bar_maximum(maximum)) == BAR_WIDTH,
{
    let m = bar_maximum(maximum);
    let k1 = if value < 0 { 0 } else if value > m { m } else { value };
    let k2 = if larger < 0 { 0 } else if larger > m { m } else { larger };
    assert(0 <= k1 * BAR_WIDTH / m <= k2 * BAR_WIDTH / m <= BAR_WIDTH) by (nonlinear_arith)
        requires
            0 <= k1 <= k2 <= m,
            m >= 1,
            BAR_WIDTH == 170,
    {
        assert(k1 * BAR_WIDTH <= k2 * BAR_WIDTH);
        assert(k2 * BAR_WIDTH <= m * BAR_WIDTH);
        assert(m * BAR_WIDTH / m == BAR_WIDTH);
    }
    assert(m * BAR_WIDTH / m == BAR_WIDTH) by (nonlinear_arith)
        requires
            m >= 1,
    ;
}

/// Whether a status bar's fill can be computed in 32 bits.
pub open spec fn bar_fits(value: int, maximum: int) -> bool {
    let m = bar_maximum(maximum);
    (if value < 0 {
        0
    } else if value > m {
        m
    } else {
        value
    }) * BAR_WIDTH <= u32::MAX
}

/// A status bar drawn at height `y`: its label in white, its value text in
/// the bar's colour, a dark grey bar 170 by 12 pixels below them, filled in
/// the bar's colour in proportion to the value, and a white outline.
pub open spec fn status_bar_drawn(
    m: FrameModel,
    y: int,
    label: Seq<char>,
    value: int,
    maximum: int,
    color: Color,
) -> FrameModel {
    let max = bar_maximum(maximum);
    let m1 = text_drawn(m, label, 18, y, 2, Color::white());
    let m2 = text_drawn(m1, bar_text(value, max), 130, y, 2, color);
    let m3 = painted(m2, rect_cover(18, y + 12, BAR_WIDTH as int, 12), Color::darkgray());
    let m4 = painted(m3, rect_cover(18, y + 12, bar_fill(value, max), 12), color);
    painted(m4, outline_cover(18, y + 12, BAR_WIDTH as int, 12), Color::white())
}

fn render_status_bar(
    fb: &mut Framebuffer,
    y: u32,
    label: &Vec<char>,
    value: i32,
    maximum: i32,
    color: Color,
)
    requires
        old(fb).inv(),
        y + 24 <= u32::MAX,
        18 + label@.len() * 8 <= u32::MAX,
        bar_fits(value as int, maximum as int),
    ensures
        final(fb).inv(),
        final(fb)@ == status_bar_drawn(old(fb)@, y as int, label@, value as int, maximum as int, color),
{
    let maximum = if maximum < 1 {
        1
    } else {
        maximum
    };
    let kept = if value < 0 {
        0
    } else if value > maximum {
        maximum
    } else {
        value
    };
    let filled_width = (kept as u32 * BAR_WIDTH) / maximum as u32;
    let shown = if value < 0 {
        0
    } else {
        value
    };
    let mut value_text = decimal_chars(shown as u64);
    value_text.push('/');
    let maximum_text = decimal_chars(maximum as u64);
    let mut i: usize = 0;
    let ghost prefix = value_text@;
    while i < maximum_text.len()
        invariant
            0 <= i <= maximum_text@.len(),
            maximum_text@.len() <= 20,
            value_text@ == prefix + maximum_text@.take(i as int),
        decreases maximum_text@.len() - i,
    {
        value_text.push(maximum_text[i]);
        proof {
            assert(maximum_text@.take(i + 1) =~= maximum_text@.take(i as int).push(maximum_text@[i as int]));
            assert(value_text@ =~= prefix + maximum_text@.take(i + 1));
        }
        i += 1;
    }
    proof {
        assert(maximum_text@.take(i as int) =~= maximum_text@);
        assert(value_text@ =~= bar_text(value as int, maximum as int));
    }
    draw_text(fb, label, 18, y, 2, Color::white());
    draw_text(fb, &value_text, 18 + 112, y, 2, color);
    draw_rectangle(fb, 18, y + 12, BAR_WIDTH, 12, Color::darkgray());
    draw_rectangle(fb, 18, y + 12, filled_width, 12, color);
    draw_outline(fb, 18, y + 12, BAR_WIDTH, 12, Color::white());
}

/// The characters of a label.
pub open spec fn label_vida() -> Seq<char> {
    seq!['V', 'I', 'D', 'A']
}

pub open spec fn label_municion() -> Seq<char> {
    seq!['M', 'U', 'N', 'I', 'C', 'I', 'O', 'N']
}

pub open spec fn label_enemigos() -> Seq<char> {
    seq!['E', 'N', 'E', 'M', 'I', 'G', 'O', 'S', ':']
}

/// The heads-up display: the health bar (red, out of 100) at height 14, the
/// ammunition bar (yellow) at height 48, and the number of enemies left
/// below them.
pub open spec fn hud_drawn(m: FrameModel, health: int, ammo: int, max_ammo: int, enemies_alive: nat) -> FrameModel {
    let m1 = status_bar_drawn(m, 14, label_vida(), health, 100, Color::red());
    let m2 = status_bar_drawn(m1, 48, label_municion(), ammo, max_ammo, Color::yellow());
    let m3 = text_drawn(m2, label_enemigos(), 18, 84, 2, Color::white());
    text_drawn(m3, decimal(enemies_alive), 92, 84, 2, Color::skyblue())
}

/// Draws the heads-up display.
pub fn render_hud(fb: &mut Framebuffer, health: i32, ammo: i32, max_ammo: i32, enemies_alive: usize)
    requires
        old(fb).inv(),
        bar_fits(ammo as int, max_ammo as int),
    ensures
        final(fb).inv(),
        final(fb)@ == hud_drawn(old(fb)@, health as int, ammo as int, max_ammo as int, enemies_alive as nat),
{
    let vida = vec!['V', 'I', 'D', 'A'];
    let municion = vec!['M', 'U', 'N', 'I', 'C', 'I', 'O', 'N'];
    let enemigos = vec!['E', 'N', 'E', 'M', 'I', 'G', 'O', 'S', ':'];
    proof {
        assert(vida@ =~= label_vida());
        assert(municion@ =~= label_municion());
        assert(enemigos@ =~= label_enemigos());
    }
    render_status_bar(fb, 14, &vida, health, 100, Color::red());
    render_status_bar(fb, 48, &municion, ammo, max_ammo, Color::yellow());
    draw_text(fb, &enemigos, 18, 84, 2, Color::white());
    let count = decimal_chars(enemies_alive as u64);
    draw_text(fb, &count, 92, 84, 2, Color::skyblue());
}

} // verus!
