//! The greedy placement: find where the nearest already-placed color sits,
//! then the nearest open cell to it, first through the offset table and,
//! once the grid is nearly full, by scanning every cell.

use vstd::prelude::*;
use crate::canvas::{Canvas, base_at, color_index, color_number, flat, in_grid, lemma_color_index};
use crate::color::{ColorBase, base_in_range, display_of};
use crate::offsets::{
    ColorOffset, LocationOffset, Weighted, color_variant, color_variants, lemma_color_table_complete,
    lemma_digits_determine, lemma_digits_in_range, location_offset_len,
};
use crate::palette::Location;

verus! {

/// Number of the color `cb + o`, where every channel stays in `[0, levels)`.
pub open spec fn shifted_color(cb: ColorBase, o: ColorOffset, levels: int) -> Option<int> {
    let r = cb.r + o.dr;
    let g = cb.g + o.dg;
    let b = cb.b + o.db;
    if 0 <= r < levels && 0 <= g < levels && 0 <= b < levels {
        Some(r + levels * (g + levels * b))
    } else {
        None
    }
}

/// Cell `a + o`, where it lies in the grid.
pub open spec fn shifted_location(a: Location, o: LocationOffset, size: int) -> Option<Location> {
    let r = a.row + o.di;
    let c = a.col + o.dj;
    if 0 <= r < size && 0 <= c < size {
        Some(Location { row: r as usize, col: c as usize })
    } else {
        None
    }
}

/// Weighted distance from anchor `a` to cell `l`.
pub open spec fn anchor_distance(a: Location, l: Location) -> int {
    location_offset_len(l.row - a.row, l.col - a.col)
}

/// Iteration at which the search for an open cell turns global.
pub open spec fn switchover_spec(total: int) -> int {
    total * 9 / 10
}

/// The first cell of the grid, where a color goes when nothing has been placed.
pub open spec fn origin() -> Location {
    Location { row: 0, col: 0 }
}

impl Canvas {
    pub open spec fn color_hit(self, cb: ColorBase, o: ColorOffset) -> Option<Location> {
        match shifted_color(cb, o, self.levels as int) {
            Some(k) => self.placed@[k],
            None => None,
        }
    }

    /// Location of the first color reached by `offs[j..]` from `cb` that
    /// has been placed.
    pub open spec fn first_color_hit(self, cb: ColorBase, offs: Seq<ColorOffset>, j: int) -> Option<
        Location,
    >
        decreases offs.len() - j,
    {
        if j < 0 || j >= offs.len() {
            None
        } else {
            match self.color_hit(cb, offs[j]) {
                Some(l) => Some(l),
                None => self.first_color_hit(cb, offs, j + 1),
            }
        }
    }

    /// The first cell reached by `offs[j..]` from `a` that is in the grid and open.
    pub open spec fn first_open_near(self, a: Location, offs: Seq<LocationOffset>, j: int) -> Option<
        Location,
    >
        decreases offs.len() - j,
    {
        if j < 0 || j >= offs.len() {
            None
        } else {
            match shifted_location(a, offs[j], self.size as int) {
                Some(l) => if self.is_open(l) {
                    Some(l)
                } else {
                    self.first_open_near(a, offs, j + 1)
                },
                None => self.first_open_near(a, offs, j + 1),
            }
        }
    }

    pub open spec fn anchor_of(self, cb: ColorBase, offs: Seq<ColorOffset>) -> Location {
        match self.first_color_hit(cb, offs, 0) {
            Some(l) => l,
            None => origin(),
        }
    }

    /// Cell `q` comes before cell `l` in row-major order.
    pub open spec fn before(q: Location, l: Location) -> bool {
        q.row < l.row || (q.row == l.row && q.col < l.col)
    }

    pub open spec fn full(self) -> bool {
        forall|q: Location| in_grid(q, self.size as int) ==> !#[trigger] self.is_open(q)
    }

    pub open spec fn nearest_open(self, a: Location, l: Location) -> bool {
        &&& in_grid(l, self.size as int)
        &&& self.is_open(l)
        &&& forall|q: Location|
            in_grid(q, self.size as int) && #[trigger] self.is_open(q) ==> anchor_distance(a, l)
                <= anchor_distance(a, q)
    }

    proof fn lemma_no_hit_after(self, cb: ColorBase, offs: Seq<ColorOffset>, i: int, j: int)
        requires
            0 <= i <= j < offs.len(),
            self.first_color_hit(cb, offs, i) is None,
        ensures
            self.color_hit(cb, offs[j]) is None,
        decreases j - i,
    {
        if i < j {
            self.lemma_no_hit_after(cb, offs, i + 1, j);
        }
    }

    /// With a table that holds every sign variant of every color, the
    /// lookup of the nearest placed color fails only while nothing has been
    /// placed.
    pub proof fn lemma_lookup_succeeds(self, cb: ColorBase, offs: Seq<ColorOffset>, k: int)
        requires
            self.wf(),
            base_in_range(cb, self.levels as int),
            offs.to_multiset() == color_variants(self.levels as int).to_multiset(),
            0 <= k < self.num_colors(),
            self.placed@[k] is Some,
        ensures
            self.first_color_hit(cb, offs, 0) is Some,
    {
        let lv = self.levels as int;
        let target = base_at(k, lv);
        lemma_digits_in_range(k, lv);
        let dr = target.r - cb.r;
        let dg = target.g - cb.g;
        let db = target.b - cb.b;
        let mag = ColorBase {
            r: (if dr < 0 { -dr } else { dr }) as u8,
            g: (if dg < 0 { -dg } else { dg }) as u8,
            b: (if db < 0 { -db } else { db }) as u8,
        };
        let n = color_index(mag, lv);
        let sign = (if dr < 0 { 4int } else { 0 }) + (if dg < 0 { 2int } else { 0 }) + (if db < 0 {
            1int
        } else {
            0
        });
        lemma_color_index(mag, lv);
        lemma_digits_in_range(n, lv);
        assert(sign / 4 == 1 <==> dr < 0);
        assert((sign / 2) % 2 == 1 <==> dg < 0);
        assert(sign % 2 == 1 <==> db < 0);
        let o = ColorOffset { dr: dr as i16, dg: dg as i16, db: db as i16 };
        assert(color_variant(n, sign, lv) == o);
        lemma_color_table_complete(offs, lv, n, sign);
        let j = choose|j: int| 0 <= j < offs.len() && offs[j] == o;
        lemma_color_index(target, lv);
        lemma_digits_in_range(color_index(target, lv), lv);
        lemma_digits_determine(color_index(target, lv), k, lv);
        assert(shifted_color(cb, o, lv) == Some(k));
        if self.first_color_hit(cb, offs, 0) is None {
            self.lemma_no_hit_after(cb, offs, 0, j);
        }
    }

    /// Scans `offs` in order from `cb` and returns where the first color
    /// reached that has been placed sits.
    pub fn nearest_placed(&self, cb: ColorBase, offs: &Vec<ColorOffset>) -> (r: Option<Location>)
        requires
            self.wf(),
            base_in_range(cb, self.levels as int),
        ensures
            r == self.first_color_hit(cb, offs@, 0),
            r matches Some(l) ==> in_grid(l, self.size as int),
    {
        let lv = self.levels as i32;
        let mut j: usize = 0;
        while j < offs.len()
            invariant
                self.wf(),
                lv == self.levels,
                j <= offs@.len(),
                self.first_color_hit(cb, offs@, 0) == self.first_color_hit(cb, offs@, j as int),
            decreases offs@.len() - j,
        {
            let o = offs[j];
            let r = cb.r as i32 + o.dr as i32;
            let g = cb.g as i32 + o.dg as i32;
            let b = cb.b as i32 + o.db as i32;
            if 0 <= r && r < lv && 0 <= g && g < lv && 0 <= b && b < lv {
                let shifted = ColorBase { r: r as u8, g: g as u8, b: b as u8 };
                let k = color_number(shifted, self.levels);
                if let Some(l) = self.placed[k] {
                    return Some(l);
                }
            }
            j = j + 1;
        }
        None
    }

    /// Scans `offs` in order from `a` and returns the first cell reached
    /// that is in the grid and open.
    pub fn find_open_near(&self, a: Location, offs: &Vec<LocationOffset>) -> (r: Option<Location>)
        requires
            self.wf(),
            in_grid(a, self.size as int),
        ensures
            r == self.first_open_near(a, offs@, 0),
            r matches Some(l) ==> in_grid(l, self.size as int) && self.is_open(l),
    {
        let sz = self.size as i64;
        let mut j: usize = 0;
        while j < offs.len()
            invariant
                self.wf(),
                sz == self.size,
                in_grid(a, self.size as int),
                j <= offs@.len(),
                self.first_open_near(a, offs@, 0) == self.first_open_near(a, offs@, j as int),
            decreases offs@.len() - j,
        {
            let o = offs[j];
            let r = a.row as i64 + o.di as i64;
            let c = a.col as i64 + o.dj as i64;
            if 0 <= r && r < sz && 0 <= c && c < sz {
                let l = Location { row: r as usize, col: c as usize };
                if self.cell_is_open(l) {
                    return Some(l);
                }
            }
            j = j + 1;
        }
        None
    }

    /// Scans every cell and returns an open one at the least weighted
    /// distance from `a` (the first such in row-major order), or `None`
    /// when the grid is full.
    pub fn find_open_global(&self, a: Location) -> (r: Option<Location>)
        requires
            self.wf(),
            in_grid(a, self.size as int),
        ensures
            r matches Some(l) ==> self.nearest_open(a, l),
            r matches Some(l) ==> forall|q: Location|
                in_grid(q, self.size as int) && Self::before(q, l) && #[trigger] self.is_open(q)
                    ==> anchor_distance(a, l) < anchor_distance(a, q),
            r is None ==> self.full(),
    {
        let mut best: Option<Location> = None;
        let mut best_d: i128 = 0;
        let mut row: usize = 0;
        while row < self.size
            invariant
                self.wf(),
                in_grid(a, self.size as int),
                row <= self.size,
                best matches Some(l) ==> in_grid(l, self.size as int) && self.is_open(l) && best_d
                    == anchor_distance(a, l),
                forall|q: Location|
                    in_grid(q, self.size as int) && q.row < row && #[trigger] self.is_open(q)
                        ==> (best matches Some(l) && anchor_distance(a, l) <= anchor_distance(a, q)),
                best matches Some(l) ==> l.row < row && forall|q: Location|
                    in_grid(q, self.size as int) && Self::before(q, l) && #[trigger] self.is_open(q)
                        ==> anchor_distance(a, l) < anchor_distance(a, q),
            decreases self.size - row,
        {
            let mut col: usize = 0;
            while col < self.size
                invariant
                    self.wf(),
                    in_grid(a, self.size as int),
                    row < self.size,
                    col <= self.size,
                    best matches Some(l) ==> in_grid(l, self.size as int) && self.is_open(l)
                        && best_d == anchor_distance(a, l),
                    forall|q: Location|
                        in_grid(q, self.size as int) && (q.row < row || (q.row == row && q.col
                            < col)) && #[trigger] self.is_open(q) ==> (best matches Some(l)
                            && anchor_distance(a, l) <= anchor_distance(a, q)),
                    best matches Some(l) ==> (l.row < row || (l.row == row && l.col < col))
                        && forall|q: Location|
                        in_grid(q, self.size as int) && Self::before(q, l) && #[trigger] self.is_open(q)
                            ==> anchor_distance(a, l) < anchor_distance(a, q),
                decreases self.size - col,
            {
                let l = Location { row, col };
                if self.cell_is_open(l) {
                    let step = LocationOffset {
                        di: (row as i64 - a.row as i64) as i32,
                        dj: (col as i64 - a.col as i64) as i32,
                    };
                    let d = step.weight();
                    let better = match best {
                        None => true,
                        Some(_) => d < best_d,
                    };
                    if better {
                        best = Some(l);
                        best_d = d;
                    }
                }
                col = col + 1;
            }
            row = row + 1;
        }
        best
    }
}

impl Canvas {
    /// One step of the placement engine for candidate `cb` at iteration `i`
    /// of `total`: the anchor is where the first placed color along
    /// `color_offsets` sits (the origin when nothing is placed yet); the
    /// target is the first open cell along `location_offsets` from the
    /// anchor before the switchover, and after it the open cell nearest to
    /// the anchor by weighted distance, the first in row-major order on a tie. The target, if any, receives `cb`; with no
    /// target nothing changes.
    pub fn place_candidate(
        &mut self,
        cb: ColorBase,
        i: u64,
        total: u64,
        color_offsets: &Vec<ColorOffset>,
        location_offsets: &Vec<LocationOffset>,
    ) -> (r: Option<Location>)
        requires
            old(self).wf(),
            base_in_range(cb, old(self).levels as int),
            total <= 0x1000_0000_0000_0000,
        ensures
            final(self).wf(),
            final(self).size == old(self).size,
            final(self).levels == old(self).levels,
            final(self).seeds == old(self).seeds,
            i < switchover_spec(total as int) ==> r == old(self).first_open_near(
                old(self).anchor_of(cb, color_offsets@),
                location_offsets@,
                0,
            ),
            i >= switchover_spec(total as int) ==> (r matches Some(l) ==> old(self).nearest_open(
                old(self).anchor_of(cb, color_offsets@),
                l,
            )),
            i >= switchover_spec(total as int) ==> (r matches Some(l) ==> forall|q: Location|
                in_grid(q, old(self).size as int) && Self::before(q, l) && #[trigger] old(
                    self,
                ).is_open(q) ==> anchor_distance(old(self).anchor_of(cb, color_offsets@), l)
                    < anchor_distance(old(self).anchor_of(cb, color_offsets@), q)),
            i >= switchover_spec(total as int) ==> (r is None ==> old(self).full()),
            r matches Some(l) ==> {
                &&& in_grid(l, old(self).size as int)
                &&& old(self).is_open(l)
                &&& final(self).cells@ == old(self).cells@.update(
                    flat(l, old(self).size as int),
                    Some(display_of(cb, old(self).levels as int)),
                )
                &&& final(self).placed@ == old(self).placed@.update(
                    color_index(cb, old(self).levels as int),
                    Some(l),
                )
            },
            r is None ==> *final(self) == *old(self),
    {
        let anchor = match self.nearest_placed(cb, color_offsets) {
            Some(l) => l,
            None => Location { row: 0, col: 0 },
        };
        let target = if uses_global_phase(i, total) {
            self.find_open_global(anchor)
        } else {
            self.find_open_near(anchor, location_offsets)
        };
        if let Some(l) = target {
            self.commit(cb, l);
        }
        target
    }
}

/// The iteration at which the open-cell search turns global: nine tenths
/// of `total`, rounded down.
pub fn switchover(total: u64) -> (s: u64)
    requires
        total <= 0x1000_0000_0000_0000,
    ensures
        s == switchover_spec(total as int),
{
    total * 9 / 10
}

/// Whether iteration `i` of `total` searches the whole grid for an open cell.
pub fn uses_global_phase(i: u64, total: u64) -> (g: bool)
    requires
        total <= 0x1000_0000_0000_0000,
    ensures
        g == (i >= switchover_spec(total as int)),
{
    i >= switchover(total)
}

} // verus!
