//! A whole run: seeding, then greedy placement of one candidate per
//! iteration until every iteration has been tried.

use vstd::prelude::*;
use crate::canvas::{Canvas, flat, in_grid, lemma_flat_bounds, lemma_flat_injective};
use crate::color::color_base_to_color;
use crate::offsets::{build_color_offsets, build_location_offsets};
use crate::palette::{
    Location, axis_gap, band_low, draw_color_base, draw_seed_location, nearest_palette,
    nearest_palette_index, seed_gap_sq, spaced,
};
use crate::random::seeded_rng;

verus! {

/// Seeds keep the minimum spacing from every earlier seed.
pub open spec fn seeds_spaced(seeds: Seq<Location>, size: int, num_seeds: int) -> bool {
    forall|i: int, j: int|
        0 <= i < j < seeds.len() ==> #[trigger] spaced(seeds[i], seeds[j], size, num_seeds)
}

/// Each seed cell shows a color whose nearest palette color names the band
/// of rows the seed lies in.
pub open spec fn seeds_in_bands(c: Canvas) -> bool {
    forall|i: int|
        0 <= i < c.seeds@.len() ==> (#[trigger] c.cell(c.seeds@[i]) matches Some(col) && band_low(
            nearest_palette(col),
            c.size as int,
        ) <= c.seeds@[i].row < band_low(nearest_palette(col) + 1, c.size as int))
}

/// Runs the whole fill for `scale`: a grid of `scale^3` by `scale^3` cells,
/// `scale^2` levels per channel and `scale^6` iterations, the first
/// `num_seeds` of which place seeds, all driven by the generator seeded
/// with `seed`. An iteration whose draws or search come up empty places
/// nothing.
pub fn make_grid(scale: u64, num_seeds: usize, seed: u64) -> (c: Canvas)
    requires
        2 <= scale <= 16,
        num_seeds <= scale * scale * scale * scale * scale * scale,
    ensures
        c.wf(),
        c.size == scale * scale * scale,
        c.levels == scale * scale,
        c.seeds@.len() <= num_seeds,
        seeds_spaced(c.seeds@, c.size as int, num_seeds as int),
        seeds_in_bands(c),
{
    assert(4 <= scale * scale <= 256 && 8 <= scale * scale * scale <= 4096
        && scale * scale * scale * scale * scale * scale <= 0x100_0000) by (nonlinear_arith)
        requires
            2 <= scale <= 16,
    ;
    let levels = scale * scale;
    let size = (scale * scale * scale) as usize;
    assert(levels * levels * levels == scale * scale * scale * scale * scale * scale)
        by (nonlinear_arith)
        requires
            levels == scale * scale,
    ;
    assert(levels * levels <= 256 * 256 && levels * levels * levels <= 0x100_0000)
        by (nonlinear_arith)
        requires
            levels <= 256,
    ;
    let total = levels * levels * levels;
    let mut rng = seeded_rng(seed);
    let color_offsets = build_color_offsets(levels);
    let location_offsets = build_location_offsets(size);
    let mut canvas = Canvas::new(size, levels);
    proof {
        assert forall|q: Location| in_grid(q, size as int) implies #[trigger] canvas.is_open(q) by {
            lemma_flat_bounds(q, size as int);
        }
    }
    let mut i: u64 = 0;
    while i < total
        invariant
            canvas.wf(),
            canvas.size == size,
            canvas.levels == levels,
            4 <= levels <= 256,
            8 <= size <= 4096,
            total <= 0x100_0000,
            num_seeds <= total,
            canvas.seeds@.len() <= i,
            canvas.seeds@.len() <= num_seeds,
            seeds_spaced(canvas.seeds@, size as int, num_seeds as int),
            seeds_in_bands(canvas),
            i <= num_seeds ==> forall|q: Location|
                in_grid(q, size as int) && !#[trigger] canvas.is_open(q) ==> exists|t: int|
                    0 <= t < canvas.seeds@.len() && #[trigger] canvas.seeds@[t] == q,
        decreases total - i,
    {
        if let Some(cb) = draw_color_base(&mut rng, levels) {
            if i < num_seeds as u64 {
                let band = nearest_palette_index(color_base_to_color(cb, levels));
                let found = draw_seed_location(&mut rng, band, size, &canvas.seeds, num_seeds);
                if let Some(l) = found {
                    proof {
                        if !canvas.is_open(l) {
                            let t = choose|t: int|
                                0 <= t < canvas.seeds@.len() && #[trigger] canvas.seeds@[t] == l;
                            assert(spaced(canvas.seeds@[t], l, size as int, num_seeds as int));
                            assert(axis_gap(l.row as int, l.row as int, size as int) == 0);
                            assert(axis_gap(l.col as int, l.col as int, size as int) == 0);
                            assert(seed_gap_sq(l, l, size as int) == 0);
                            assert(4 * (num_seeds as int) * seed_gap_sq(l, l, size as int) == 0);
                            assert(size * size > 0) by (nonlinear_arith)
                                requires
                                    size > 0,
                            ;
                        }
                    }
                    let ghost pre = canvas;
                    canvas.commit(cb, l);
                    canvas.seeds.push(l);
                    proof {
                        let s = canvas.seeds@;
                        assert forall|a: int, b: int|
                            0 <= a < b < s.len() implies #[trigger] spaced(
                            s[a],
                            s[b],
                            size as int,
                            num_seeds as int,
                        ) by {
                            if b == s.len() - 1 {
                                assert(spaced(pre.seeds@[a], l, size as int, num_seeds as int));
                            } else {
                                assert(spaced(pre.seeds@[a], pre.seeds@[b], size as int, num_seeds as int));
                            }
                        }
                        assert forall|a: int| 0 <= a < s.len() implies in_grid(
                            #[trigger] s[a],
                            size as int,
                        ) by {
                            if a < s.len() - 1 {
                                assert(in_grid(pre.seeds@[a], size as int));
                            }
                        }
                        assert forall|a: int| 0 <= a < s.len() implies (#[trigger] canvas.cell(
                            s[a],
                        ) matches Some(col) && band_low(nearest_palette(col), size as int)
                            <= s[a].row < band_low(nearest_palette(col) + 1, size as int)) by {
                            lemma_flat_bounds(l, size as int);
                            if a < s.len() - 1 {
                                assert(pre.cell(pre.seeds@[a]) is Some);
                                assert(in_grid(pre.seeds@[a], size as int));
                                lemma_flat_bounds(pre.seeds@[a], size as int);
                            }
                        }
                        assert forall|q: Location|
                            in_grid(q, size as int) && !#[trigger] canvas.is_open(q) implies exists|t: int|
                            0 <= t < s.len() && #[trigger] s[t] == q by {
                            lemma_flat_bounds(q, size as int);
                            lemma_flat_bounds(l, size as int);
                            if q == l {
                                assert(s[s.len() - 1] == q);
                            } else {
                                if flat(q, size as int) == flat(l, size as int) {
                                    lemma_flat_injective(q, l, size as int);
                                }
                                assert(!pre.is_open(q));
                                let t = choose|t: int|
                                    0 <= t < pre.seeds@.len() && #[trigger] pre.seeds@[t] == q;
                                assert(s[t] == q);
                            }
                        }
                    }
                }
            } else {
                let ghost pre = canvas;
                let placed = canvas.place_candidate(cb, i, total, &color_offsets, &location_offsets);
                proof {
                    if let Some(l) = placed {
                        let s = canvas.seeds@;
                        assert forall|a: int| 0 <= a < s.len() implies (#[trigger] canvas.cell(
                            s[a],
                        ) matches Some(col) && band_low(nearest_palette(col), size as int)
                            <= s[a].row < band_low(nearest_palette(col) + 1, size as int)) by {
                            assert(pre.cell(pre.seeds@[a]) is Some);
                            assert(in_grid(pre.seeds@[a], size as int));
                            lemma_flat_bounds(l, size as int);
                            lemma_flat_bounds(pre.seeds@[a], size as int);
                        }
                    }
                }
            }
        }
        i = i + 1;
    }
    canvas
}

} // verus!
