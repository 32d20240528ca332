//! Tabulating an attribute along the edges of a triangle, one sample for
//! each scanline.
//!
//! The attribute is a value of the caller's type `T`. The library does not
//! compute with it: the caller hands in the value at both ends and a function
//! `advance` that turns the sample of one step into the sample of the next.
//! The first and the last sample are the values handed in, as they are; the
//! samples between them come from `advance`, applied once for each step.

use vstd::prelude::*;
use crate::shading::span_len;

verus! {

/// `table` holds one sample for each integer from `i0` to `i1`, both
/// included, in ascending order. The first sample is `d0`. Where there is
/// more than one, the last sample is `d1`, and each sample between the two
/// is what `advance` returned for the sample before it. With `i0 > i1` the
/// table is empty.
pub open spec fn is_interpolation<T, F: Fn(T) -> T>(
    table: Seq<(i64, T)>,
    i0: int,
    d0: T,
    i1: int,
    d1: T,
    advance: F,
) -> bool {
    &&& table.len() == span_len(i0, i1)
    &&& forall|k: int| 0 <= k < table.len() ==> (#[trigger] table[k]).0 == i0 + k
    &&& table.len() > 0 ==> table[0].1 == d0
    &&& table.len() > 1 ==> table[table.len() - 1].1 == d1
    &&& forall|k: int|
        1 <= k < table.len() - 1 ==> advance.ensures((table[k - 1].1,), (#[trigger] table[k]).1)
}

/// `advance` can be applied to `start`, and to whatever it returns for a
/// sample that it can be applied to.
pub open spec fn can_advance_from<T, F: Fn(T) -> T>(advance: F, start: T) -> bool {
    &&& advance.requires((start,))
    &&& forall|d: T, next: T|
        advance.requires((d,)) && advance.ensures((d,), next) ==> advance.requires((next,))
}

/// The two short sides of a triangle as one table: the samples of the upper
/// side without its last one, which is the middle corner again, followed by
/// the samples of the lower side.
pub open spec fn short_sides<T>(upper: Seq<(i64, T)>, lower: Seq<(i64, T)>) -> Seq<(i64, T)> {
    if upper.len() > 0 {
        upper.drop_last() + lower
    } else {
        lower
    }
}

/// Samples an attribute at every integer from `i0` to `i1`: `d0` at `i0`,
/// `d1` at `i1`, and between them what `advance` makes of `d0` step by step.
/// From an integer to itself there is the one sample `d0`. Where there is a
/// sample between the ends, `advance` has to be applicable from `d0` on.
pub fn interpolate<T: Copy, F: Fn(T) -> T>(i0: i64, d0: T, i1: i64, d1: T, advance: F) -> (table:
    Vec<(i64, T)>)
    requires
        i1 - i0 < usize::MAX,
        i0 + 1 < i1 ==> can_advance_from(advance, d0),
    ensures
        is_interpolation(table@, i0 as int, d0, i1 as int, d1, advance),
{
    let mut table: Vec<(i64, T)> = Vec::new();
    if i0 > i1 {
        return table;
    }
    table.push((i0, d0));
    if i0 == i1 {
        return table;
    }
    let mut i: i64 = i0 + 1;
    let mut d: T = d0;
    while i < i1
        invariant
            i0 < i <= i1,
            i1 - i0 < usize::MAX,
            table.len() == i - i0,
            forall|k: int| 0 <= k < table.len() ==> (#[trigger] table[k]).0 == i0 + k,
            table[0].1 == d0,
            forall|k: int|
                1 <= k < table.len() ==> advance.ensures((table[k - 1].1,), (#[trigger] table[k]).1),
            d == table[table.len() - 1].1,
            i0 + 1 < i1 ==> can_advance_from(advance, d0),
            i < i1 ==> advance.requires((d,)),
        decreases i1 - i,
    {
        d = advance(d);
        table.push((i, d));
        i = i + 1;
    }
    table.push((i1, d1));
    table
}

/// The edge tables of a triangle whose corners lie on the rows `y0`, `y1` and
/// `y2`, from the top corner to the bottom one, with the values `v0`, `v1`
/// and `v2`. The first table follows the long side from `y0` to `y2`. The
/// second follows the two short sides, from `y0` to `y1` and on from `y1` to
/// `y2`, with the middle row sampled once, as the start `v1` of the lower
/// side.
pub fn edge_interpolate<T: Copy, F01: Fn(T) -> T, F02: Fn(T) -> T, F12: Fn(T) -> T>(
    y0: i64,
    v0: T,
    y1: i64,
    v1: T,
    y2: i64,
    v2: T,
    advance01: F01,
    advance02: F02,
    advance12: F12,
) -> (tables: [Vec<(i64, T)>; 2])
    requires
        y1 - y0 < usize::MAX,
        y2 - y0 < usize::MAX,
        y2 - y1 < usize::MAX,
        y0 + 1 < y1 ==> can_advance_from(advance01, v0),
        y0 + 1 < y2 ==> can_advance_from(advance02, v0),
        y1 + 1 < y2 ==> can_advance_from(advance12, v1),
    ensures
        is_interpolation(tables[0]@, y0 as int, v0, y2 as int, v2, advance02),
        exists|upper: Seq<(i64, T)>, lower: Seq<(i64, T)>|
            {
                &&& is_interpolation(upper, y0 as int, v0, y1 as int, v1, advance01)
                &&& is_interpolation(lower, y1 as int, v1, y2 as int, v2, advance12)
                &&& tables[1]@ == short_sides(upper, lower)
            },
{
    let mut v01 = interpolate(y0, v0, y1, v1, advance01);
    let v02 = interpolate(y0, v0, y2, v2, advance02);
    let v12 = interpolate(y1, v1, y2, v2, advance12);
    let ghost upper = v01@;
    let ghost lower = v12@;
    v01.pop();
    let mut k: usize = 0;
    while k < v12.len()
        invariant
            k <= v12.len(),
            v12@ == lower,
            v01@ == short_sides(upper, lower.take(k as int)),
        decreases v12.len() - k,
    {
        v01.push(v12[k]);
        k = k + 1;
        assert(v01@ =~= short_sides(upper, lower.take(k as int)));
    }
    assert(lower.take(k as int) =~= lower);
    [v02, v01]
}

/// Which of the two edge tables runs down the left side of the triangle,
/// and which down the right: decided once, on the row in the middle of the
/// first table. The first table is the left one when `less` says that its
/// sample there is the smaller.
pub fn left_right<T: Copy, F: Fn(T, T) -> bool>(tables: &[Vec<(i64, T)>; 2], less: F) -> (sides: (
    usize,
    usize,
))
    requires
        tables[0].len() / 2 < tables[0].len(),
        tables[0].len() / 2 < tables[1].len(),
        less.requires((tables[0][tables[0].len() as int / 2].1, tables[1][tables[0].len() as int / 2].1)),
    ensures
        sides == (0usize, 1usize) || sides == (1usize, 0usize),
        less.ensures(
            (tables[0][tables[0].len() as int / 2].1, tables[1][tables[0].len() as int / 2].1),
            sides.0 == 0,
        ),
{
    let midpoint: usize = tables[0].len() / 2;
    if less(tables[0][midpoint].1, tables[1][midpoint].1) {
        (0, 1)
    } else {
        (1, 0)
    }
}

/// From one integer to itself there is a single sample, the first value.
pub proof fn lemma_interpolation_of_one_row<T, F: Fn(T) -> T>(
    table: Seq<(i64, T)>,
    i0: i64,
    d0: T,
    d1: T,
    advance: F,
)
    requires
        is_interpolation(table, i0 as int, d0, i0 as int, d1, advance),
    ensures
        table == seq![(i0, d0)],
{
    assert(table[0].0 == i0);
    assert(table =~= seq![(i0, d0)]);
}

/// The first sample is the value at the near end and the last sample is the
/// value at the far end, each as it was handed in.
pub proof fn lemma_interpolation_ends<T, F: Fn(T) -> T>(
    table: Seq<(i64, T)>,
    i0: i64,
    d0: T,
    i1: i64,
    d1: T,
    advance: F,
)
    requires
        i0 < i1,
        is_interpolation(table, i0 as int, d0, i1 as int, d1, advance),
    ensures
        table.len() == i1 - i0 + 1,
        table.first() == (i0, d0),
        table.last() == (i1, d1),
{
    assert(table[0].0 == i0);
    assert(table[table.len() - 1].0 == i1);
}

/// When every step leaves the sample as it is, and the value at the far end
/// is the value at the near end, every sample is that value.
pub proof fn lemma_interpolation_constant<T, F: Fn(T) -> T>(
    table: Seq<(i64, T)>,
    i0: int,
    d0: T,
    i1: int,
    advance: F,
    k: int,
)
    requires
        is_interpolation(table, i0, d0, i1, d0, advance),
        forall|d: T, next: T| advance.ensures((d,), next) ==> next == d,
        0 <= k < table.len(),
    ensures
        table[k].1 == d0,
    decreases k,
{
    if 0 < k < table.len() - 1 {
        lemma_interpolation_constant(table, i0, d0, i1, advance, k - 1);
        assert(advance.ensures((table[k - 1].1,), table[k].1));
    }
}

/// When every step adds `slope`, the samples lie on a line: sample `k` is
/// `d0 + k * slope`, up to the last sample, which is `d1`. With a slope that
/// divides the rise from `d0` to `d1` the last sample lies on the line too.
pub proof fn lemma_interpolation_linear<F: Fn(i64) -> i64>(
    table: Seq<(i64, i64)>,
    i0: int,
    d0: i64,
    i1: int,
    d1: i64,
    advance: F,
    slope: int,
    k: int,
)
    requires
        is_interpolation(table, i0, d0, i1, d1, advance),
        forall|d: i64, next: i64| advance.ensures((d,), next) ==> next == d + slope,
        0 <= k < table.len(),
    ensures
        k < table.len() - 1 ==> table[k].1 == d0 + k * slope,
        d1 - d0 == slope * (i1 - i0) ==> table[k].1 == d0 + k * slope,
    decreases k,
{
    if 0 < k < table.len() - 1 {
        lemma_interpolation_linear(table, i0, d0, i1, d1, advance, slope, k - 1);
        assert(advance.ensures((table[k - 1].1,), table[k].1));
        assert(d0 + (k - 1) * slope + slope == d0 + k * slope) by (nonlinear_arith);
    }
    if 0 < k == table.len() - 1 {
        assert(k * slope == slope * (i1 - i0)) by (nonlinear_arith)
            requires
                k == i1 - i0,
        ;
    }
}

/// For a triangle whose rows are in ascending order, both edge tables hold
/// one sample for each row from `y0` to `y2`, and sample `k` of either
/// belongs to row `y0 + k`. On the row of a corner the table of its side
/// holds the value of the corner as it was handed in: the long side at the
/// top and at the bottom corner, the short sides at the middle corner, and
/// at the top and the bottom corner where a side leads there.
pub proof fn lemma_edge_tables_aligned<T, F01: Fn(T) -> T, F02: Fn(T) -> T, F12: Fn(T) -> T>(
    long: Seq<(i64, T)>,
    short: Seq<(i64, T)>,
    upper: Seq<(i64, T)>,
    lower: Seq<(i64, T)>,
    y0: int,
    v0: T,
    y1: int,
    v1: T,
    y2: int,
    v2: T,
    advance01: F01,
    advance02: F02,
    advance12: F12,
)
    requires
        y0 <= y1 <= y2,
        is_interpolation(long, y0, v0, y2, v2, advance02),
        is_interpolation(upper, y0, v0, y1, v1, advance01),
        is_interpolation(lower, y1, v1, y2, v2, advance12),
        short == short_sides(upper, lower),
    ensures
        long.len() == y2 - y0 + 1,
        short.len() == y2 - y0 + 1,
        forall|k: int| 0 <= k < long.len() ==> (#[trigger] long[k]).0 == y0 + k,
        forall|k: int| 0 <= k < short.len() ==> (#[trigger] short[k]).0 == y0 + k,
        long[0].1 == v0,
        y0 < y2 ==> long[y2 - y0].1 == v2,
        short[y1 - y0].1 == v1,
        y0 < y1 ==> short[0].1 == v0,
        y1 < y2 ==> short[y2 - y0].1 == v2,
{
    assert forall|k: int| 0 <= k < short.len() implies (#[trigger] short[k]).0 == y0 + k by {
        if k < y1 - y0 {
            assert(short[k] == upper[k]);
        } else {
            assert(short[k] == lower[k - (y1 - y0)]);
        }
    }
    assert(short[y1 - y0] == lower[0]);
    if y0 < y1 {
        assert(short[0] == upper[0]);
    }
    if y1 < y2 {
        assert(short[y2 - y0] == lower[y2 - y1]);
    }
}

} // verus!
