//! The four-color palette that candidate colors are kept away from, and the
//! rules that place seed anchors in the palette's horizontal bands.

use vstd::prelude::*;
use crate::color::{Color, ColorBase, MAX_LEVELS, base_in_range, display_of, color_base_to_color};
use crate::random::gen_range;

verus! {

/// Number of palette colors, and of horizontal bands on the grid.
pub const PALETTE_LEN: usize = 4;

/// Squared distance under which a candidate counts as too close to the palette.
pub const TARGET_DISTANCE: u64 = 2700;

/// Upper bound on the draws one rejection loop makes before giving up.
pub const MAX_DRAWS: u64 = 0xffff_ffff_ffff_ffff;

/// A grid cell: row and column.
#[derive(Clone, Copy, Debug, PartialEq, Eq, Structural)]
pub struct Location {
    pub row: usize,
    pub col: usize,
}

pub open spec fn palette_spec(k: int) -> Color {
    if k == 0 {
        Color { r: 252, g: 244, b: 52 }
    } else if k == 1 {
        Color { r: 255, g: 255, b: 255 }
    } else if k == 2 {
        Color { r: 156, g: 89, b: 209 }
    } else {
        Color { r: 0, g: 0, b: 0 }
    }
}

/// Palette color `k`, top band first.
pub fn palette_color(k: usize) -> (c: Color)
    requires
        k < PALETTE_LEN,
    ensures
        c == palette_spec(k as int),
{
    if k == 0 {
        Color { r: 252, g: 244, b: 52 }
    } else if k == 1 {
        Color { r: 255, g: 255, b: 255 }
    } else if k == 2 {
        Color { r: 156, g: 89, b: 209 }
    } else {
        Color { r: 0, g: 0, b: 0 }
    }
}

pub open spec fn abs_diff(a: int, b: int) -> int {
    if a < b {
        b - a
    } else {
        a - b
    }
}

/// Distance along one channel from `ct` to palette channel `cf`: within the
/// palette channel's distance to the nearer end of `[0, 255]` it counts
/// double, beyond it that margin is added once.
pub open spec fn axis_distance(ct: int, cf: int) -> int {
    let edge = if cf < 255 - cf {
        cf
    } else {
        255 - cf
    };
    let raw = abs_diff(ct, cf);
    if raw <= edge {
        2 * raw
    } else {
        raw + edge
    }
}

pub open spec fn edge_distance(c: Color, f: Color) -> int {
    let dr = axis_distance(c.r as int, f.r as int);
    let dg = axis_distance(c.g as int, f.g as int);
    let db = axis_distance(c.b as int, f.b as int);
    dr * dr + dg * dg + db * db
}

/// Smallest edge-aware distance from `c` to the first `k` palette colors,
/// starting from `3 * 255 * 255`.
pub open spec fn palette_distance_upto(c: Color, k: int) -> int
    decreases k,
{
    if k <= 0 {
        195075int
    } else {
        let m = palette_distance_upto(c, k - 1);
        let d = edge_distance(c, palette_spec(k - 1));
        if d < m {
            d
        } else {
            m
        }
    }
}

/// A candidate is kept when it is not within the target distance of any
/// palette color.
pub open spec fn acceptable(c: Color) -> bool {
    palette_distance_upto(c, 4) >= TARGET_DISTANCE
}

fn axis_distance_exec(ct: u8, cf: u8) -> (d: u64)
    ensures
        d == axis_distance(ct as int, cf as int),
        d <= 510,
{
    let edge: u64 = if cf < 255 - cf {
        cf as u64
    } else {
        (255 - cf) as u64
    };
    let raw: u64 = if ct < cf {
        (cf - ct) as u64
    } else {
        (ct - cf) as u64
    };
    if raw <= edge {
        2 * raw
    } else {
        raw + edge
    }
}

fn edge_distance_exec(c: Color, f: Color) -> (d: u64)
    ensures
        d == edge_distance(c, f),
{
    let dr = axis_distance_exec(c.r, f.r);
    let dg = axis_distance_exec(c.g, f.g);
    let db = axis_distance_exec(c.b, f.b);
    assert(dr * dr <= 510 * 510 && dg * dg <= 510 * 510 && db * db <= 510 * 510)
        by (nonlinear_arith)
        requires
            dr <= 510,
            dg <= 510,
            db <= 510,
    ;
    dr * dr + dg * dg + db * db
}

/// Whether a display color is far enough from every palette color to be used.
pub fn is_acceptable(c: Color) -> (ok: bool)
    ensures
        ok == acceptable(c),
{
    let mut m: u64 = 3 * 255 * 255;
    let mut k: usize = 0;
    while k < PALETTE_LEN
        invariant
            k <= PALETTE_LEN,
            m == palette_distance_upto(c, k as int),
        decreases PALETTE_LEN - k,
    {
        let d = edge_distance_exec(c, palette_color(k));
        if d < m {
            m = d;
        }
        k = k + 1;
    }
    m >= TARGET_DISTANCE
}

/// Draws channels uniformly in `[0, levels)` until the display color is
/// acceptable; `None` only if `MAX_DRAWS` draws all failed.
pub fn draw_color_base(rng: &mut rand::rngs::StdRng, levels: u64) -> (r: Option<ColorBase>)
    requires
        1 < levels <= MAX_LEVELS,
    ensures
        r matches Some(cb) ==> base_in_range(cb, levels as int) && acceptable(
            display_of(cb, levels as int),
        ),
{
    let mut tries: u64 = 0;
    while tries < MAX_DRAWS
        invariant
            1 < levels <= MAX_LEVELS,
        decreases MAX_DRAWS - tries,
    {
        let r = gen_range(rng, 0, levels as usize) as u8;
        let g = gen_range(rng, 0, levels as usize) as u8;
        let b = gen_range(rng, 0, levels as usize) as u8;
        let cb = ColorBase { r, g, b };
        if is_acceptable(color_base_to_color(cb, levels)) {
            return Some(cb);
        }
        tries = tries + 1;
    }
    None
}

pub open spec fn plain_distance(c: Color, f: Color) -> int {
    let dr = c.r - f.r;
    let dg = c.g - f.g;
    let db = c.b - f.b;
    dr * dr + dg * dg + db * db
}

/// Index of the palette color among the first `k` that is nearest to `c`
/// by squared Euclidean distance, the earliest on a tie.
pub open spec fn nearest_palette_upto(c: Color, k: int) -> int
    decreases k,
{
    if k <= 1 {
        0
    } else {
        let b = nearest_palette_upto(c, k - 1);
        if plain_distance(c, palette_spec(k - 1)) < plain_distance(c, palette_spec(b)) {
            k - 1
        } else {
            b
        }
    }
}

pub open spec fn nearest_palette(c: Color) -> int {
    nearest_palette_upto(c, 4)
}

proof fn lemma_nearest_palette_bound(c: Color, k: int)
    requires
        1 <= k,
    ensures
        0 <= nearest_palette_upto(c, k) < k,
    decreases k,
{
    if k > 1 {
        lemma_nearest_palette_bound(c, k - 1);
    }
}

fn plain_distance_exec(c: Color, f: Color) -> (d: i64)
    ensures
        d == plain_distance(c, f),
{
    let dr = c.r as i64 - f.r as i64;
    let dg = c.g as i64 - f.g as i64;
    let db = c.b as i64 - f.b as i64;
    assert(0 <= dr * dr <= 255 * 255 && 0 <= dg * dg <= 255 * 255 && 0 <= db * db <= 255 * 255)
        by (nonlinear_arith)
        requires
            -255 <= dr <= 255,
            -255 <= dg <= 255,
            -255 <= db <= 255,
    ;
    dr * dr + dg * dg + db * db
}

/// The palette color nearest to `c`, which names the band its seed goes to.
pub fn nearest_palette_index(c: Color) -> (k: usize)
    ensures
        k == nearest_palette(c),
        k < PALETTE_LEN,
{
    let mut best: usize = 0;
    let mut best_d = plain_distance_exec(c, palette_color(0));
    let mut k: usize = 1;
    while k < PALETTE_LEN
        invariant
            1 <= k <= PALETTE_LEN,
            best == nearest_palette_upto(c, k as int),
            best < k,
            best_d == plain_distance(c, palette_spec(best as int)),
        decreases PALETTE_LEN - k,
    {
        let d = plain_distance_exec(c, palette_color(k));
        if d < best_d {
            best = k;
            best_d = d;
        }
        k = k + 1;
    }
    best
}

/// First row of band `k` on a grid of `size` rows.
pub open spec fn band_low(k: int, size: int) -> int {
    k * size / 4
}

/// Gap along one axis from `a` to `b`: the smaller of `|a - b|` and
/// `a - b + size`. It wraps around only where `a < b`.
pub open spec fn axis_gap(a: int, b: int, size: int) -> int {
    let d = a - b;
    let ad = if d < 0 {
        -d
    } else {
        d
    };
    if ad < d + size {
        ad
    } else {
        d + size
    }
}

pub open spec fn seed_gap_sq(a: Location, b: Location, size: int) -> int {
    let dr = axis_gap(a.row as int, b.row as int, size);
    let dc = axis_gap(a.col as int, b.col as int, size);
    dr * dr + dc * dc
}

/// `b` is at least `size / (2 * sqrt(num_seeds))` away from the earlier seed
/// `a`, compared in squares.
pub open spec fn spaced(a: Location, b: Location, size: int, num_seeds: int) -> bool {
    4 * num_seeds * seed_gap_sq(a, b, size) >= size * size
}

pub open spec fn clear_of(seeds: Seq<Location>, b: Location, size: int, num_seeds: int) -> bool {
    forall|i: int| 0 <= i < seeds.len() ==> #[trigger] spaced(seeds[i], b, size, num_seeds)
}

fn axis_gap_exec(a: usize, b: usize, size: usize) -> (g: i64)
    requires
        a < size,
        b < size,
        size <= 4096,
    ensures
        g == axis_gap(a as int, b as int, size as int),
        0 <= g < 2 * size,
{
    let d = a as i64 - b as i64;
    let ad = if d < 0 {
        -d
    } else {
        d
    };
    if ad < d + size as i64 {
        ad
    } else {
        d + size as i64
    }
}

/// Whether `b` keeps the minimum spacing from every seed placed so far.
pub fn is_clear_of(seeds: &Vec<Location>, b: Location, size: usize, num_seeds: usize) -> (ok: bool)
    requires
        0 < size <= 4096,
        num_seeds <= 0x100_0000,
        b.row < size,
        b.col < size,
        forall|i: int| 0 <= i < seeds@.len() ==> #[trigger] seeds@[i].row < size && seeds@[i].col < size,
    ensures
        ok == clear_of(seeds@, b, size as int, num_seeds as int),
{
    let mut i: usize = 0;
    while i < seeds.len()
        invariant
            0 < size <= 4096,
            num_seeds <= 0x100_0000,
            b.row < size,
            b.col < size,
            i <= seeds@.len(),
            forall|k: int| 0 <= k < seeds@.len() ==> #[trigger] seeds@[k].row < size && seeds@[k].col < size,
            forall|k: int| 0 <= k < i ==> #[trigger] spaced(seeds@[k], b, size as int, num_seeds as int),
        decreases seeds@.len() - i,
    {
        let a = seeds[i];
        let dr = axis_gap_exec(a.row, b.row, size);
        let dc = axis_gap_exec(a.col, b.col, size);
        assert(dr * dr + dc * dc <= 2 * 8192 * 8192 && 0 <= dr * dr + dc * dc) by (nonlinear_arith)
            requires
                0 <= dr < 8192,
                0 <= dc < 8192,
        ;
        let sq = dr * dr + dc * dc;
        let weight: i64 = 4 * (num_seeds as i64);
        assert(0 <= weight * sq <= 0x400_0000 * (2 * 8192 * 8192)) by (nonlinear_arith)
            requires
                0 <= weight <= 0x400_0000,
                0 <= sq <= 2 * 8192 * 8192,
        ;
        assert(size * size <= 4096 * 4096) by (nonlinear_arith)
            requires
                size <= 4096,
        ;
        if weight * sq < (size * size) as i64 {
            assert(!spaced(seeds@[i as int], b, size as int, num_seeds as int));
            return false;
        }
        i = i + 1;
    }
    true
}

/// Draws a seed cell in band `band` (any column) until it keeps the minimum
/// spacing from every earlier seed; `None` only if `MAX_DRAWS` draws all
/// failed.
pub fn draw_seed_location(
    rng: &mut rand::rngs::StdRng,
    band: usize,
    size: usize,
    seeds: &Vec<Location>,
    num_seeds: usize,
) -> (r: Option<Location>)
    requires
        band < PALETTE_LEN,
        4 <= size <= 4096,
        num_seeds <= 0x100_0000,
        forall|i: int| 0 <= i < seeds@.len() ==> #[trigger] seeds@[i].row < size && seeds@[i].col < size,
    ensures
        r matches Some(l) ==> {
            &&& band_low(band as int, size as int) <= l.row < band_low(band + 1, size as int)
            &&& l.row < size
            &&& l.col < size
            &&& clear_of(seeds@, l, size as int, num_seeds as int)
        },
{
    assert(band * size / 4 < (band + 1) * size / 4 <= size) by (nonlinear_arith)
        requires
            band < 4,
            4 <= size,
    ;
    let low = band * size / 4;
    let high = (band + 1) * size / 4;
    let mut tries: u64 = 0;
    while tries < MAX_DRAWS
        invariant
            low == band_low(band as int, size as int),
            high == band_low(band + 1, size as int),
            low < high <= size,
            4 <= size <= 4096,
            num_seeds <= 0x100_0000,
            forall|i: int| 0 <= i < seeds@.len() ==> #[trigger] seeds@[i].row < size && seeds@[i].col < size,
        decreases MAX_DRAWS - tries,
    {
        let row = gen_range(rng, low, high);
        let col = gen_range(rng, 0, size);
        let l = Location { row, col };
        if is_clear_of(seeds, l, size, num_seeds) {
            return Some(l);
        }
        tries = tries + 1;
    }
    None
}

} // verus!
