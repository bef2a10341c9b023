//! Quantized colors and their display form.

use vstd::prelude::*;

verus! {

/// A quantized color: each channel lies in `[0, levels)`.
#[derive(Clone, Copy, Debug, PartialEq, Eq, Structural)]
pub struct ColorBase {
    pub r: u8,
    pub g: u8,
    pub b: u8,
}

/// A displayable 8-bit RGB color.
#[derive(Clone, Copy, Debug, PartialEq, Eq, Structural)]
pub struct Color {
    pub r: u8,
    pub g: u8,
    pub b: u8,
}

/// Largest number of quantization levels per channel that a `u8` can hold.
pub const MAX_LEVELS: u64 = 256;

/// `x * 255 / (levels - 1)`, rounded to the nearest integer (halves up).
pub open spec fn display_channel(x: int, levels: int) -> int {
    (510 * x + (levels - 1)) / (2 * (levels - 1))
}

pub open spec fn base_in_range(cb: ColorBase, levels: int) -> bool {
    cb.r < levels && cb.g < levels && cb.b < levels
}

pub open spec fn display_of(cb: ColorBase, levels: int) -> Color {
    Color {
        r: display_channel(cb.r as int, levels) as u8,
        g: display_channel(cb.g as int, levels) as u8,
        b: display_channel(cb.b as int, levels) as u8,
    }
}

pub proof fn lemma_display_channel_bounds(x: int, levels: int)
    requires
        1 < levels,
        0 <= x < levels,
    ensures
        0 <= display_channel(x, levels) <= 255,
{
    let d = levels - 1;
    assert(0 <= 510 * x + d) by (nonlinear_arith)
        requires
            0 <= x,
            0 < d,
    ;
    assert(510 * x + d <= 256 * (2 * d)) by (nonlinear_arith)
        requires
            x <= d,
            0 < d,
    ;
    assert((510 * x + d) / (2 * d) <= 255) by (nonlinear_arith)
        requires
            510 * x + d < 256 * (2 * d),
            0 < d,
    ;
}

/// Rescales one channel from `[0, levels)` to `[0, 255]`.
pub fn channel_to_display(x: u8, levels: u64) -> (r: u8)
    requires
        1 < levels <= MAX_LEVELS,
        x < levels,
    ensures
        r == display_channel(x as int, levels as int),
{
    proof {
        lemma_display_channel_bounds(x as int, levels as int);
        assert(510 * (x as int) <= 510 * 255) by (nonlinear_arith)
            requires
                x <= 255,
        ;
    }
    let d = levels - 1;
    ((510 * (x as u64) + d) / (2 * d)) as u8
}

/// Maps a quantized color to its display color, channel by channel.
pub fn color_base_to_color(cb: ColorBase, levels: u64) -> (c: Color)
    requires
        1 < levels <= MAX_LEVELS,
        base_in_range(cb, levels as int),
    ensures
        c == display_of(cb, levels as int),
{
    Color {
        r: channel_to_display(cb.r, levels),
        g: channel_to_display(cb.g, levels),
        b: channel_to_display(cb.b, levels),
    }
}

/// The display rescaling never decreases along a channel.
pub proof fn lemma_display_monotonic(x: int, y: int, levels: int)
    requires
        1 < levels,
        0 <= x <= y < levels,
    ensures
        display_channel(x, levels) <= display_channel(y, levels),
{
    let d = levels - 1;
    assert(510 * x + d <= 510 * y + d) by (nonlinear_arith)
        requires
            x <= y,
    ;
    assert((510 * x + d) / (2 * d) <= (510 * y + d) / (2 * d)) by (nonlinear_arith)
        requires
            510 * x + d <= 510 * y + d,
            0 < d,
    ;
}

/// With at most 256 levels the rescaling tells levels apart.
pub proof fn lemma_display_strict(x: int, y: int, levels: int)
    requires
        1 < levels <= MAX_LEVELS,
        0 <= x < y < levels,
    ensures
        display_channel(x, levels) < display_channel(y, levels),
{
    let d = levels - 1;
    let a = 510 * x + d;
    let b = 510 * y + d;
    assert(a + 2 * d <= b) by (nonlinear_arith)
        requires
            x + 1 <= y,
            d <= 255,
            a == 510 * x + d,
            b == 510 * y + d,
    ;
    assert(0 <= a);
    assert(a / (2 * d) < b / (2 * d)) by (nonlinear_arith)
        requires
            0 <= a,
            a + 2 * d <= b,
            0 < d,
    ;
}

/// Black stays black and the top level of every channel becomes white.
pub proof fn lemma_display_extremes(levels: int)
    requires
        1 < levels,
    ensures
        display_channel(0, levels) == 0,
        display_channel(levels - 1, levels) == 255,
{
    let d = levels - 1;
    assert(d / (2 * d) == 0) by (nonlinear_arith)
        requires
            0 < d,
    ;
    assert((510 * d + d) / (2 * d) == 255) by (nonlinear_arith)
        requires
            0 < d,
    ;
}

} // verus!
