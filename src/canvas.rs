//! The grid being filled, the index of where each color went, and the
//! searches and commits that grow it.

use vstd::prelude::*;
use crate::color::{
    Color, ColorBase, MAX_LEVELS, base_in_range, display_of, color_base_to_color,
    display_channel, lemma_display_channel_bounds, lemma_display_strict,
};
use crate::offsets::{base_digit, lemma_digits_determine, lemma_digits_in_range};
use crate::palette::Location;

verus! {

/// Position of a cell in the row-major cell vector.
pub open spec fn flat(l: Location, size: int) -> int {
    l.row * size + l.col
}

pub open spec fn in_grid(l: Location, size: int) -> bool {
    l.row < size && l.col < size
}

/// Number of a quantized color: its channels read as base-`levels` digits,
/// red lowest.
pub open spec fn color_index(cb: ColorBase, levels: int) -> int {
    cb.r + levels * (cb.g + levels * cb.b)
}

/// The quantized color numbered `k`.
pub open spec fn base_at(k: int, levels: int) -> ColorBase {
    ColorBase {
        r: base_digit(k, levels, 0) as u8,
        g: base_digit(k, levels, 1) as u8,
        b: base_digit(k, levels, 2) as u8,
    }
}

pub proof fn lemma_flat_bounds(l: Location, size: int)
    requires
        in_grid(l, size),
    ensures
        0 <= flat(l, size) < size * size,
{
    assert(0 <= l.row * size + l.col < size * size) by (nonlinear_arith)
        requires
            0 <= l.row < size,
            0 <= l.col < size,
    ;
}

/// Distinct cells of the grid have distinct positions.
pub proof fn lemma_flat_injective(a: Location, b: Location, size: int)
    requires
        in_grid(a, size),
        in_grid(b, size),
        flat(a, size) == flat(b, size),
    ensures
        a == b,
{
    let p = flat(a, size);
    assert(p == a.row * size + a.col);
    vstd::arithmetic::div_mod::lemma_fundamental_div_mod_converse(p, size, a.row as int, a.col as int);
    vstd::arithmetic::div_mod::lemma_fundamental_div_mod_converse(p, size, b.row as int, b.col as int);
}

/// Numbering quantized colors is a bijection onto `[0, levels^3)`.
pub proof fn lemma_color_index(cb: ColorBase, levels: int)
    requires
        1 < levels,
        base_in_range(cb, levels),
    ensures
        0 <= color_index(cb, levels) < levels * levels * levels,
        base_at(color_index(cb, levels), levels) == cb,
{
    let r = cb.r as int;
    let g = cb.g as int;
    let b = cb.b as int;
    let n = color_index(cb, levels);
    assert(0 <= n < levels * levels * levels) by (nonlinear_arith)
        requires
            0 <= r < levels,
            0 <= g < levels,
            0 <= b < levels,
            n == r + levels * (g + levels * b),
    ;
    assert(n == (g + levels * b) * levels + r) by (nonlinear_arith)
        requires
            n == r + levels * (g + levels * b),
    ;
    vstd::arithmetic::div_mod::lemma_fundamental_div_mod_converse(n, levels, g + levels * b, r);
    vstd::arithmetic::div_mod::lemma_fundamental_div_mod_converse(
        g + levels * b,
        levels,
        b,
        g,
    );
    assert(n == b * (levels * levels) + (g * levels + r)) by (nonlinear_arith)
        requires
            n == r + levels * (g + levels * b),
    ;
    assert(0 <= g * levels + r < levels * levels) by (nonlinear_arith)
        requires
            0 <= r < levels,
            0 <= g < levels,
    ;
    vstd::arithmetic::div_mod::lemma_fundamental_div_mod_converse(
        n,
        levels * levels,
        b,
        g * levels + r,
    );
}

proof fn lemma_display_channel_injective(x: int, y: int, levels: int)
    requires
        1 < levels <= MAX_LEVELS,
        0 <= x < levels,
        0 <= y < levels,
        display_channel(x, levels) as u8 == display_channel(y, levels) as u8,
    ensures
        x == y,
{
    lemma_display_channel_bounds(x, levels);
    lemma_display_channel_bounds(y, levels);
    if x < y {
        lemma_display_strict(x, y, levels);
    } else if y < x {
        lemma_display_strict(y, x, levels);
    }
}

/// Distinct color numbers have distinct display colors.
pub proof fn lemma_display_injective(k1: int, k2: int, levels: int)
    requires
        1 < levels <= MAX_LEVELS,
        0 <= k1 < levels * levels * levels,
        0 <= k2 < levels * levels * levels,
        display_of(base_at(k1, levels), levels) == display_of(base_at(k2, levels), levels),
    ensures
        k1 == k2,
{
    lemma_digits_in_range(k1, levels);
    lemma_digits_in_range(k2, levels);
    let c1 = base_at(k1, levels);
    let c2 = base_at(k2, levels);
    assert(display_of(c1, levels).r == display_of(c2, levels).r);
    lemma_display_channel_injective(c1.r as int, c2.r as int, levels);
    lemma_display_channel_injective(c1.g as int, c2.g as int, levels);
    lemma_display_channel_injective(c1.b as int, c2.b as int, levels);
    lemma_digits_determine(k1, k2, levels);
}

/// Position of cell `l` in the cell vector.
pub fn flat_index(l: Location, size: usize) -> (p: usize)
    requires
        in_grid(l, size as int),
        size <= 4096,
    ensures
        p == flat(l, size as int),
        p < size * size,
{
    proof {
        lemma_flat_bounds(l, size as int);
        assert(size * size <= 4096 * 4096) by (nonlinear_arith)
            requires
                size <= 4096,
        ;
    }
    l.row * size + l.col
}

/// Number of the quantized color `cb`.
pub fn color_number(cb: ColorBase, levels: u64) -> (k: usize)
    requires
        1 < levels <= MAX_LEVELS,
        base_in_range(cb, levels as int),
    ensures
        k == color_index(cb, levels as int),
        k < levels * levels * levels,
{
    proof {
        lemma_color_index(cb, levels as int);
        assert(levels * levels * levels <= 256 * 256 * 256) by (nonlinear_arith)
            requires
                levels <= 256,
        ;
        assert(levels * cb.b <= 256 * 256 && levels * (cb.g + levels * cb.b) <= 256 * 256 * 256) by (nonlinear_arith)
            requires
                levels <= 256,
                cb.b < levels,
                cb.g < levels,
        ;
    }
    let lv = levels as usize;
    cb.r as usize + lv * (cb.g as usize + lv * cb.b as usize)
}

/// The grid, the placed index and the seeds of one run.
pub struct Canvas {
    /// Side of the square grid.
    pub size: usize,
    /// Quantization levels per channel.
    pub levels: u64,
    /// Row-major cells; `None` while open.
    pub cells: Vec<Option<Color>>,
    /// For each color number, where that color was last placed.
    pub placed: Vec<Option<Location>>,
    /// Seed cells, in the order they were placed.
    pub seeds: Vec<Location>,
}

impl Canvas {
    pub open spec fn num_colors(self) -> int {
        self.levels * self.levels * self.levels
    }

    pub open spec fn cell(self, l: Location) -> Option<Color> {
        self.cells@[flat(l, self.size as int)]
    }

    pub open spec fn is_open(self, l: Location) -> bool {
        self.cell(l) is None
    }

    /// Every placed color sits at a cell in the grid that shows it; no two
    /// colors share a cell; every filled cell shows a color that the index
    /// holds; every seed lies in the grid.
    pub open spec fn wf(self) -> bool {
        &&& 1 < self.levels <= MAX_LEVELS
        &&& 4 <= self.size <= 4096
        &&& self.cells@.len() == self.size * self.size
        &&& self.placed@.len() == self.num_colors()
        &&& forall|k: int|
            0 <= k < self.num_colors() ==> (#[trigger] self.placed@[k] matches Some(l) ==> in_grid(
                l,
                self.size as int,
            ) && self.cell(l) == Some(display_of(base_at(k, self.levels as int), self.levels as int)))
        &&& forall|k1: int, k2: int|
            0 <= k1 < self.num_colors() && 0 <= k2 < self.num_colors() && k1 != k2
                && #[trigger] self.placed@[k1] is Some && #[trigger] self.placed@[k2] is Some
                ==> self.placed@[k1] != self.placed@[k2]
        &&& forall|p: int|
            0 <= p < self.cells@.len() ==> (#[trigger] self.cells@[p] matches Some(c) ==> exists|k: int|
                0 <= k < self.num_colors() && #[trigger] self.placed@[k] is Some && display_of(
                    base_at(k, self.levels as int),
                    self.levels as int,
                ) == c)
        &&& forall|i: int| 0 <= i < self.seeds@.len() ==> in_grid(#[trigger] self.seeds@[i], self.size as int)
    }

    /// Read back through the display rescaling, a filled cell names exactly
    /// one color number, and the index holds that number; no two numbers in
    /// the index share a cell.
    pub proof fn lemma_filled_cell_one_color(self, p: int)
        requires
            self.wf(),
            0 <= p < self.cells@.len(),
            self.cells@[p] is Some,
        ensures
            exists|k: int|
                0 <= k < self.num_colors() && #[trigger] self.placed@[k] is Some && display_of(
                    base_at(k, self.levels as int),
                    self.levels as int,
                ) == self.cells@[p]->Some_0,
            forall|k1: int, k2: int|
                0 <= k1 < self.num_colors() && 0 <= k2 < self.num_colors() && display_of(
                    base_at(k1, self.levels as int),
                    self.levels as int,
                ) == self.cells@[p]->Some_0 && display_of(
                    base_at(k2, self.levels as int),
                    self.levels as int,
                ) == self.cells@[p]->Some_0 ==> k1 == k2,
            forall|k1: int, k2: int|
                0 <= k1 < self.num_colors() && 0 <= k2 < self.num_colors() && k1 != k2
                    && #[trigger] self.placed@[k1] is Some && #[trigger] self.placed@[k2] is Some
                    ==> self.placed@[k1] != self.placed@[k2],
    {
        assert(self.cells@[p] is Some);
        assert forall|k1: int, k2: int|
            0 <= k1 < self.num_colors() && 0 <= k2 < self.num_colors() && display_of(
                base_at(k1, self.levels as int),
                self.levels as int,
            ) == self.cells@[p]->Some_0 && display_of(
                base_at(k2, self.levels as int),
                self.levels as int,
            ) == self.cells@[p]->Some_0 implies k1 == k2 by {
            lemma_display_injective(k1, k2, self.levels as int);
        }
    }

    /// An empty grid of `size` by `size` cells for `levels` levels per channel.
    pub fn new(size: usize, levels: u64) -> (c: Canvas)
        requires
            1 < levels <= MAX_LEVELS,
            4 <= size <= 4096,
        ensures
            c.wf(),
            c.size == size,
            c.levels == levels,
            forall|p: int| 0 <= p < c.cells@.len() ==> #[trigger] c.cells@[p] is None,
            forall|k: int| 0 <= k < c.placed@.len() ==> #[trigger] c.placed@[k] is None,
            c.seeds@.len() == 0,
    {
        assert(size * size <= 4096 * 4096) by (nonlinear_arith)
            requires
                size <= 4096,
        ;
        assert(levels * levels * levels <= 256 * 256 * 256) by (nonlinear_arith)
            requires
                levels <= 256,
        ;
        let n_cells = size * size;
        assert(levels * levels <= 256 * 256) by (nonlinear_arith)
            requires
                levels <= 256,
        ;
        let n_colors = (levels * levels * levels) as usize;
        let mut cells: Vec<Option<Color>> = Vec::new();
        let mut p: usize = 0;
        while p < n_cells
            invariant
                p <= n_cells,
                cells@.len() == p,
                forall|q: int| 0 <= q < p ==> #[trigger] cells@[q] is None,
            decreases n_cells - p,
        {
            cells.push(None);
            p = p + 1;
        }
        let mut placed: Vec<Option<Location>> = Vec::new();
        let mut k: usize = 0;
        while k < n_colors
            invariant
                k <= n_colors,
                placed@.len() == k,
                forall|q: int| 0 <= q < k ==> #[trigger] placed@[q] is None,
            decreases n_colors - k,
        {
            placed.push(None);
            k = k + 1;
        }
        Canvas { size, levels, cells, placed, seeds: Vec::new() }
    }

    /// Whether cell `l` is still open.
    pub fn cell_is_open(&self, l: Location) -> (r: bool)
        requires
            self.wf(),
            in_grid(l, self.size as int),
        ensures
            r == self.is_open(l),
    {
        proof {
            lemma_flat_bounds(l, self.size as int);
        }
        self.cells[flat_index(l, self.size)].is_none()
    }

    /// Writes `cb`'s display color into the open cell `l` and records `l` as
    /// where `cb` now sits.
    pub fn commit(&mut self, cb: ColorBase, l: Location)
        requires
            old(self).wf(),
            base_in_range(cb, old(self).levels as int),
            in_grid(l, old(self).size as int),
            old(self).is_open(l),
        ensures
            final(self).wf(),
            final(self).size == old(self).size,
            final(self).levels == old(self).levels,
            final(self).seeds == old(self).seeds,
            final(self).cells@ == old(self).cells@.update(
                flat(l, old(self).size as int),
                Some(display_of(cb, old(self).levels as int)),
            ),
            final(self).placed@ == old(self).placed@.update(
                color_index(cb, old(self).levels as int),
                Some(l),
            ),
    {
        let ghost pre = *self;
        let ghost lv = self.levels as int;
        let ghost sz = self.size as int;
        proof {
            lemma_flat_bounds(l, sz);
            lemma_color_index(cb, lv);
        }
        let color = color_base_to_color(cb, self.levels);
        let p = flat_index(l, self.size);
        let k = color_number(cb, self.levels);
        self.cells.set(p, Some(color));
        self.placed.set(k, Some(l));
        proof {
            let ki = color_index(cb, lv);
            assert forall|j: int| 0 <= j < self.num_colors() implies (#[trigger] self.placed@[j] matches Some(m) ==> in_grid(
                m,
                sz,
            ) && self.cell(m) == Some(display_of(base_at(j, lv), lv))) by {
                if j != ki {
                    if let Some(m) = pre.placed@[j] {
                        lemma_flat_bounds(m, sz);
                    }
                }
            }
            assert forall|k1: int, k2: int|
                0 <= k1 < self.num_colors() && 0 <= k2 < self.num_colors() && k1 != k2
                    && #[trigger] self.placed@[k1] is Some && #[trigger] self.placed@[k2] is Some
                implies self.placed@[k1] != self.placed@[k2] by {
                if k1 == ki {
                    assert(pre.placed@[k2] is Some);
                } else if k2 == ki {
                    assert(pre.placed@[k1] is Some);
                } else {
                    assert(pre.placed@[k1] is Some && pre.placed@[k2] is Some);
                }
            }
            assert forall|q: int| 0 <= q < self.cells@.len() implies (#[trigger] self.cells@[q] matches Some(c) ==> exists|j: int|
                0 <= j < self.num_colors() && #[trigger] self.placed@[j] is Some && display_of(
                    base_at(j, lv),
                    lv,
                ) == c) by {
                if q == p {
                    assert(self.placed@[ki] is Some);
                } else if let Some(c) = pre.cells@[q] {
                    let j = choose|j: int|
                        0 <= j < pre.num_colors() && #[trigger] pre.placed@[j] is Some && display_of(
                            base_at(j, lv),
                            lv,
                        ) == c;
                    assert(self.placed@[j] is Some);
                }
            }
        }
    }
}

} // verus!
