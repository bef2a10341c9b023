//! The two precomputed search orders: signed color offsets sorted by
//! Euclidean length, and signed grid offsets sorted by an anisotropic length.

use vstd::prelude::*;

verus! {

broadcast use vstd::seq_lib::group_to_multiset_ensures;

/// A signed step in color space.
#[derive(Clone, Copy, Debug, PartialEq, Eq, Structural)]
pub struct ColorOffset {
    pub dr: i16,
    pub dg: i16,
    pub db: i16,
}

/// A signed step on the grid: `di` rows and `dj` columns.
#[derive(Clone, Copy, Debug, PartialEq, Eq, Structural)]
pub struct LocationOffset {
    pub di: i32,
    pub dj: i32,
}

/// Something with an integer weight to sort by.
pub trait Weighted {
    spec fn weight_spec(&self) -> int;

    fn weight(&self) -> (w: i128)
        ensures
            w == self.weight_spec(),
    ;
}

/// Squared Euclidean length of a color offset.
pub open spec fn color_offset_len(o: ColorOffset) -> int {
    o.dr * o.dr + o.dg * o.dg + o.db * o.db
}

/// Anisotropic squared length of a grid offset: rows weigh five times columns.
pub open spec fn location_offset_len(di: int, dj: int) -> int {
    5 * (di * di) + dj * dj
}

impl Weighted for ColorOffset {
    open spec fn weight_spec(&self) -> int {
        color_offset_len(*self)
    }

    fn weight(&self) -> (w: i128) {
        let r = self.dr as i128;
        let g = self.dg as i128;
        let b = self.db as i128;
        proof {
            assert(0 <= r * r <= 32768 * 32768 && 0 <= g * g <= 32768 * 32768 && 0 <= b * b
                <= 32768 * 32768)
                by (nonlinear_arith)
                requires
                    -32768 <= r <= 32767,
                    -32768 <= g <= 32767,
                    -32768 <= b <= 32767,
            ;
        }
        r * r + g * g + b * b
    }
}

impl Weighted for LocationOffset {
    open spec fn weight_spec(&self) -> int {
        location_offset_len(self.di as int, self.dj as int)
    }

    fn weight(&self) -> (w: i128) {
        let i = self.di as i128;
        let j = self.dj as i128;
        proof {
            assert(0 <= i * i <= 0x4000_0000_0000_0000 && 0 <= j * j <= 0x4000_0000_0000_0000)
                by (nonlinear_arith)
                requires
                    -0x8000_0000 <= i <= 0x7fff_ffff,
                    -0x8000_0000 <= j <= 0x7fff_ffff,
            ;
        }
        5 * (i * i) + j * j
    }
}

pub open spec fn sorted_by_weight<T: Weighted>(s: Seq<T>) -> bool {
    forall|i: int, j: int| 0 <= i < j < s.len() ==> s[i].weight_spec() <= s[j].weight_spec()
}

/// Relies on std's `slice::sort_by_key`: the same items, ordered by
/// non-decreasing key.
#[verifier::external_body]
pub(crate) fn sort_by_weight<T: Weighted>(v: &mut Vec<T>)
    ensures
        final(v)@.to_multiset() == old(v)@.to_multiset(),
        sorted_by_weight(final(v)@),
{
    v.sort_by_key(|x| x.weight())
}

/// Channel `0`, `1` or `2` of the base color numbered `n`: the digits of
/// `n` in base `levels`, lowest first.
pub open spec fn base_digit(n: int, levels: int, channel: int) -> int {
    if channel == 0 {
        n % levels
    } else if channel == 1 {
        (n / levels) % levels
    } else {
        n / (levels * levels)
    }
}

pub open spec fn flip(x: int, negate: bool) -> int {
    if negate {
        -x
    } else {
        x
    }
}

/// Sign pattern `s` in `[0, 8)` applied to base color `n`: bit 2 negates
/// red, bit 1 green, bit 0 blue.
pub open spec fn color_variant(n: int, s: int, levels: int) -> ColorOffset {
    ColorOffset {
        dr: flip(base_digit(n, levels, 0), s / 4 == 1) as i16,
        dg: flip(base_digit(n, levels, 1), (s / 2) % 2 == 1) as i16,
        db: flip(base_digit(n, levels, 2), s % 2 == 1) as i16,
    }
}

/// Every sign variant of every base color, base by base, in sign order.
pub open spec fn color_variants(levels: int) -> Seq<ColorOffset> {
    Seq::new((8 * levels * levels * levels) as nat, |k: int| color_variant(k / 8, k % 8, levels))
}

/// Sign pattern `s` in `[0, 4)` applied to grid offset `n` (row `n % size`,
/// column `n / size`): bit 1 negates the row, bit 0 the column.
pub open spec fn location_variant(n: int, s: int, size: int) -> LocationOffset {
    LocationOffset {
        di: flip(n % size, s / 2 == 1) as i32,
        dj: flip(n / size, s % 2 == 1) as i32,
    }
}

/// Every sign variant of every in-grid offset, in enumeration order.
pub open spec fn location_variants(size: int) -> Seq<LocationOffset> {
    Seq::new((4 * size * size) as nat, |k: int| location_variant(k / 4, k % 4, size))
}

pub proof fn lemma_digits_in_range(n: int, levels: int)
    requires
        0 < levels,
        0 <= n < levels * levels * levels,
    ensures
        0 <= base_digit(n, levels, 0) < levels,
        0 <= base_digit(n, levels, 1) < levels,
        0 <= base_digit(n, levels, 2) < levels,
{
    assert(0 <= n / levels);
    assert(0 <= n / (levels * levels) < levels) by (nonlinear_arith)
        requires
            0 < levels,
            0 <= n < levels * levels * levels,
    ;
}

/// A base color is determined by its three digits.
pub proof fn lemma_digits_determine(n: int, m: int, levels: int)
    requires
        0 < levels,
        0 <= n,
        0 <= m,
        base_digit(n, levels, 0) == base_digit(m, levels, 0),
        base_digit(n, levels, 1) == base_digit(m, levels, 1),
        base_digit(n, levels, 2) == base_digit(m, levels, 2),
    ensures
        n == m,
{
    vstd::arithmetic::div_mod::lemma_div_denominator(n, levels, levels);
    vstd::arithmetic::div_mod::lemma_div_denominator(m, levels, levels);
    vstd::arithmetic::div_mod::lemma_fundamental_div_mod(n, levels);
    vstd::arithmetic::div_mod::lemma_fundamental_div_mod(m, levels);
    vstd::arithmetic::div_mod::lemma_fundamental_div_mod(n / levels, levels);
    vstd::arithmetic::div_mod::lemma_fundamental_div_mod(m / levels, levels);
}

proof fn lemma_variant_index(n: int, s: int, levels: int)
    requires
        1 < levels,
        0 <= n < levels * levels * levels,
        0 <= s < 8,
    ensures
        0 <= 8 * n + s < color_variants(levels).len(),
        color_variants(levels)[8 * n + s] == color_variant(n, s, levels),
{
    assert(8 * n + s < 8 * levels * levels * levels) by (nonlinear_arith)
        requires
            n < levels * levels * levels,
            s < 8,
    ;
    assert((8 * n + s) / 8 == n && (8 * n + s) % 8 == s);
}

/// A table with the same items as `color_variants` holds every sign variant
/// of every quantized color.
pub proof fn lemma_color_table_complete(t: Seq<ColorOffset>, levels: int, n: int, s: int)
    requires
        1 < levels <= 256,
        t.to_multiset() == color_variants(levels).to_multiset(),
        0 <= n < levels * levels * levels,
        0 <= s < 8,
    ensures
        t.contains(color_variant(n, s, levels)),
{
    lemma_variant_index(n, s, levels);
    let v = color_variant(n, s, levels);
    assert(color_variants(levels).contains(v));
    assert(color_variants(levels).to_multiset().count(v) > 0);
    assert(t.to_multiset().count(v) > 0);
}

/// In such a table a sign variant of a color with no zero channel occurs
/// exactly once.
pub proof fn lemma_color_table_variant_once(t: Seq<ColorOffset>, levels: int, n: int, s: int)
    requires
        1 < levels <= 256,
        t.to_multiset() == color_variants(levels).to_multiset(),
        0 <= n < levels * levels * levels,
        0 <= s < 8,
        base_digit(n, levels, 0) != 0,
        base_digit(n, levels, 1) != 0,
        base_digit(n, levels, 2) != 0,
    ensures
        t.to_multiset().count(color_variant(n, s, levels)) == 1,
{
    broadcast use vstd::multiset::group_multiset_axioms;

    let all = color_variants(levels);
    let v = color_variant(n, s, levels);
    let k = 8 * n + s;
    lemma_variant_index(n, s, levels);
    lemma_digits_in_range(n, levels);
    let rest = all.remove(k);
    assert forall|i: int| 0 <= i < rest.len() implies #[trigger] rest[i] != v by {
        let j = if i < k {
            i
        } else {
            i + 1
        };
        assert(rest[i] == all[j]);
        let m = j / 8;
        let t2 = j % 8;
        assert(0 <= m < levels * levels * levels) by (nonlinear_arith)
            requires
                0 <= j < 8 * levels * levels * levels,
                m == j / 8,
        ;
        lemma_digits_in_range(m, levels);
        assert(all[j] == color_variant(m, t2, levels));
        if all[j] == v {
            lemma_digits_determine(n, m, levels);
            assert(t2 == s);
            assert(j == k);
        }
    }
    assert(!rest.contains(v));
    assert(rest.to_multiset().count(v) == 0);
    assert(all.to_multiset().count(v) > 0);
}

/// The color offset table: every sign variant of every quantized color,
/// sorted by squared Euclidean length.
pub fn build_color_offsets(levels: u64) -> (t: Vec<ColorOffset>)
    requires
        1 < levels <= 256,
    ensures
        t@.to_multiset() == color_variants(levels as int).to_multiset(),
        sorted_by_weight(t@),
{
    let ghost l = levels as int;
    assert(levels * levels <= 256 * 256 && levels * levels * levels <= 256 * 256 * 256)
        by (nonlinear_arith)
        requires
            1 < levels <= 256,
    ;
    let count = levels * levels * levels;
    assert(8 * count == 8 * l * l * l) by (nonlinear_arith)
        requires
            count == levels * levels * levels,
            l == levels,
    ;
    let mut v: Vec<ColorOffset> = Vec::new();
    let mut n: u64 = 0;
    while n < count
        invariant
            l == levels,
            1 < levels <= 256,
            count == l * l * l,
            8 * count == 8 * l * l * l,
            n <= count,
            v@ =~= color_variants(l).take(8 * n),
            8 * count == color_variants(l).len(),
        decreases count - n,
    {
        proof {
            lemma_digits_in_range(n as int, l);
            assert(0 < levels * levels <= 256 * 256) by (nonlinear_arith)
                requires
                    1 < levels <= 256,
            ;
        }
        let r = (n % levels) as i16;
        let g = ((n / levels) % levels) as i16;
        let b = (n / (levels * levels)) as i16;
        v.push(ColorOffset { dr: r, dg: g, db: b });
        v.push(ColorOffset { dr: r, dg: g, db: -b });
        v.push(ColorOffset { dr: r, dg: -g, db: b });
        v.push(ColorOffset { dr: r, dg: -g, db: -b });
        v.push(ColorOffset { dr: -r, dg: g, db: b });
        v.push(ColorOffset { dr: -r, dg: g, db: -b });
        v.push(ColorOffset { dr: -r, dg: -g, db: b });
        v.push(ColorOffset { dr: -r, dg: -g, db: -b });
        proof {
            let all = color_variants(l);
            assert forall|k: int| 8 * n <= k < 8 * n + 8 implies v@[k] == #[trigger] all[k] by {
                assert(k / 8 == n);
            }
            assert(v@ =~= all.take(8 * (n + 1)));
        }
        n = n + 1;
    }
    proof {
        assert(color_variants(l).take(8 * count) =~= color_variants(l));
    }
    sort_by_weight(&mut v);
    v
}

/// The location offset table for a `size` by `size` grid: every sign variant
/// of every in-grid offset, sorted by anisotropic length.
pub fn build_location_offsets(size: usize) -> (t: Vec<LocationOffset>)
    requires
        0 < size <= 4096,
    ensures
        t@.to_multiset() == location_variants(size as int).to_multiset(),
        sorted_by_weight(t@),
{
    let ghost z = size as int;
    assert(size * size <= 4096 * 4096) by (nonlinear_arith)
        requires
            0 < size <= 4096,
    ;
    let count = size * size;
    assert(4 * count == 4 * z * z) by (nonlinear_arith)
        requires
            count == size * size,
            z == size,
    ;
    let mut v: Vec<LocationOffset> = Vec::new();
    let mut n: usize = 0;
    while n < count
        invariant
            z == size,
            0 < size <= 4096,
            count == z * z,
            4 * count == 4 * z * z,
            n <= count,
            v@ =~= location_variants(z).take(4 * n),
            4 * count == location_variants(z).len(),
        decreases count - n,
    {
        assert(n / size < size) by (nonlinear_arith)
            requires
                0 < size,
                n < size * size,
        ;
        let i = (n % size) as i32;
        let j = (n / size) as i32;
        v.push(LocationOffset { di: i, dj: j });
        v.push(LocationOffset { di: i, dj: -j });
        v.push(LocationOffset { di: -i, dj: j });
        v.push(LocationOffset { di: -i, dj: -j });
        proof {
            let all = location_variants(z);
            assert forall|k: int| 4 * n <= k < 4 * n + 4 implies v@[k] == #[trigger] all[k] by {
                assert(k / 4 == n);
            }
            assert(v@ =~= all.take(4 * (n + 1)));
        }
        n = n + 1;
    }
    proof {
        assert(location_variants(z).take(4 * count) =~= location_variants(z));
    }
    sort_by_weight(&mut v);
    v
}

} // verus!
