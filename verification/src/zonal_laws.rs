//! Reductions of parts are reductions of the whole.

use vstd::prelude::*;

use crate::number::Real;
use crate::zonal;
use crate::zonal::{FeatureStatistics, PixelStatistics};

verus! {

/// Zero adds nothing.
pub open spec fn zero_is_neutral<F: Fn(Real, Real) -> Real>(plus: F) -> bool {
    let zero = Real { bits: 0 };
    forall|a: Real| #[trigger]
        zonal::sum_of(plus, a, zero) == a && zonal::sum_of(plus, zero, a) == a
}

/// Sums do not depend on how they are grouped.
pub open spec fn sums_group<F: Fn(Real, Real) -> Real>(plus: F) -> bool {
    forall|a: Real, b: Real, c: Real| #[trigger]
        zonal::sum_of(plus, zonal::sum_of(plus, a, b), c) == zonal::sum_of(
            plus,
            a,
            zonal::sum_of(plus, b, c),
        )
}

/// Sums do not depend on which part comes first.
pub open spec fn sums_commute<F: Fn(Real, Real) -> Real>(plus: F) -> bool {
    forall|a: Real, b: Real| #[trigger] zonal::sum_of(plus, a, b) == zonal::sum_of(plus, b, a)
}

/// Every pixel that has a value has a number.
pub open spec fn values_are_numbers(data: Seq<Real>, nodata: Seq<bool>) -> bool {
    forall|i: int| 0 <= i < data.len() && !nodata[i] ==> !(#[trigger] data[i]).nan()
}

/// How many of the first `n` pixels have a value.
pub open spec fn valued(nodata: Seq<bool>, n: int) -> nat
    decreases n,
{
    if n <= 0 {
        0
    } else {
        valued(nodata, n - 1) + (if nodata[n - 1] {
            0nat
        } else {
            1nat
        })
    }
}

/// A reduction counts the pixels that have a value, and its extremes are the
/// least and the greatest of their values; without one it has none.
pub proof fn a_reduction_counts_and_bounds<F: Fn(Real, Real) -> Real>(
    data: Seq<Real>,
    nodata: Seq<bool>,
    plus: F,
    n: int,
)
    requires
        0 <= n <= data.len() <= usize::MAX,
        data.len() == nodata.len(),
        values_are_numbers(data, nodata),
    ensures
        ({
            let s = zonal::band_statistics(data, nodata, plus, n);
            &&& s.count == valued(nodata, n)
            &&& valued(nodata, n) <= n
            &&& s.count == 0 ==> s.sum.bits == 0 && s.minimum == zonal::no_number() && s.maximum
                == zonal::no_number()
            &&& s.count > 0 ==> !s.minimum.nan() && !s.maximum.nan()
            &&& s.count > 0 ==> exists|i: int|
                0 <= i < n && !nodata[i] && #[trigger] data[i] == s.minimum
            &&& s.count > 0 ==> exists|i: int|
                0 <= i < n && !nodata[i] && #[trigger] data[i] == s.maximum
            &&& forall|i: int|
                0 <= i < n && !nodata[i] ==> s.minimum.place() <= (#[trigger] data[i]).place()
                    <= s.maximum.place()
        }),
    decreases n,
{
    if n > 0 {
        a_reduction_counts_and_bounds(data, nodata, plus, n - 1);
        let before = zonal::band_statistics(data, nodata, plus, n - 1);
        let s = zonal::band_statistics(data, nodata, plus, n);
        if !nodata[n - 1] {
            assert(!data[n - 1].nan());
            assert(s.count == before.count + 1);
            if before.count > 0 {
                let i = choose|i: int|
                    0 <= i < n - 1 && !nodata[i] && #[trigger] data[i] == before.minimum;
                let j = choose|j: int|
                    0 <= j < n - 1 && !nodata[j] && #[trigger] data[j] == before.maximum;
                assert(data[i] == s.minimum || data[n - 1] == s.minimum);
                assert(data[j] == s.maximum || data[n - 1] == s.maximum);
            } else {
                assert(before.minimum.nan());
                assert(data[n - 1] == s.minimum);
                assert(data[n - 1] == s.maximum);
            }
        } else if s.count > 0 {
            let i = choose|i: int|
                0 <= i < n - 1 && !nodata[i] && #[trigger] data[i] == before.minimum;
            assert(data[i] == s.minimum);
            let j = choose|j: int|
                0 <= j < n - 1 && !nodata[j] && #[trigger] data[j] == before.maximum;
            assert(data[j] == s.maximum);
        }
    }
}

/// The reduction of a single pixel is its value.
pub proof fn one_pixel_is_its_value<F: Fn(Real, Real) -> Real>(v: Real, plus: F)
    requires
        zero_is_neutral(plus),
    ensures
        zonal::band_statistics(seq![v], seq![false], plus, 1) == (PixelStatistics {
            count: 1,
            sum: v,
            minimum: v,
            maximum: v,
        }),
{
    let s = zonal::band_statistics(seq![v], seq![false], plus, 1);
    let none = zonal::band_statistics(seq![v], seq![false], plus, 0);
    assert(none == zonal::no_pixels());
    assert(zonal::sum_of(plus, v, Real { bits: 0 }) == v);
    assert(none.minimum.nan());
    assert(seq![false][0] == false);
    assert(s == zonal::with_pixel(none, v, plus));
}

/// Reducing two parts and merging what comes out is reducing both together:
/// the count, the sum, the minimum and the maximum.
pub proof fn merging_is_reducing_together<F: Fn(Real, Real) -> Real>(
    a: Seq<Real>,
    no_a: Seq<bool>,
    b: Seq<Real>,
    no_b: Seq<bool>,
    plus: F,
)
    requires
        a.len() == no_a.len(),
        b.len() == no_b.len(),
        a.len() + b.len() <= usize::MAX,
        values_are_numbers(a, no_a),
        values_are_numbers(b, no_b),
        zero_is_neutral(plus),
        sums_group(plus),
    ensures
        zonal::merged(
            zonal::band_statistics(a, no_a, plus, a.len() as int),
            zonal::band_statistics(b, no_b, plus, b.len() as int),
            plus,
        ) == zonal::band_statistics(a + b, no_a + no_b, plus, (a.len() + b.len()) as int),
{
    merging_a_prefix(a, no_a, b, no_b, plus, b.len() as int);
}

proof fn reductions_of_a_prefix<F: Fn(Real, Real) -> Real>(
    a: Seq<Real>,
    no_a: Seq<bool>,
    b: Seq<Real>,
    no_b: Seq<bool>,
    plus: F,
    n: int,
)
    requires
        a.len() == no_a.len(),
        0 <= n <= a.len(),
    ensures
        zonal::band_statistics(a + b, no_a + no_b, plus, n) == zonal::band_statistics(
            a,
            no_a,
            plus,
            n,
        ),
    decreases n,
{
    if n > 0 {
        reductions_of_a_prefix(a, no_a, b, no_b, plus, n - 1);
    }
}

proof fn merging_a_prefix<F: Fn(Real, Real) -> Real>(
    a: Seq<Real>,
    no_a: Seq<bool>,
    b: Seq<Real>,
    no_b: Seq<bool>,
    plus: F,
    n: int,
)
    requires
        a.len() == no_a.len(),
        b.len() == no_b.len(),
        0 <= n <= b.len(),
        a.len() + b.len() <= usize::MAX,
        values_are_numbers(a, no_a),
        values_are_numbers(b, no_b),
        zero_is_neutral(plus),
        sums_group(plus),
    ensures
        zonal::merged(
            zonal::band_statistics(a, no_a, plus, a.len() as int),
            zonal::band_statistics(b, no_b, plus, n),
            plus,
        ) == zonal::band_statistics(a + b, no_a + no_b, plus, a.len() + n),
    decreases n,
{
    let whole = zonal::band_statistics(a, no_a, plus, a.len() as int);
    let part = zonal::band_statistics(b, no_b, plus, n);
    a_reduction_counts_and_bounds(a, no_a, plus, a.len() as int);
    a_reduction_counts_and_bounds(b, no_b, plus, n);
    if n > 0 {
        merging_a_prefix(a, no_a, b, no_b, plus, n - 1);
        a_reduction_counts_and_bounds(b, no_b, plus, n - 1);
        let before = zonal::band_statistics(b, no_b, plus, n - 1);
        assert((a + b)[a.len() + n - 1] == b[n - 1]);
        assert((no_a + no_b)[a.len() + n - 1] == no_b[n - 1]);
        if !no_b[n - 1] {
            let v = b[n - 1];
            assert(!v.nan());
            assert(zonal::sum_of(plus, zonal::sum_of(plus, whole.sum, before.sum), v)
                == zonal::sum_of(plus, whole.sum, zonal::sum_of(plus, before.sum, v)));
            assert(zonal::merged(whole, part, plus) == zonal::with_pixel(
                zonal::merged(whole, before, plus),
                v,
                plus,
            ));
        }
    } else {
        reductions_of_a_prefix(a, no_a, b, no_b, plus, a.len() as int);
        assert(zonal::sum_of(plus, whole.sum, Real { bits: 0 }) == whole.sum);
        assert(zonal::merged(whole, part, plus) == whole);
    }
}

/// The sum of two parts is what adding gives for both sums, their counts add
/// up, and each extreme is the extreme of both.
pub proof fn merging_adds_up<F: Fn(Real, Real) -> Real>(
    a: PixelStatistics,
    b: PixelStatistics,
    plus: F,
    sum: Real,
)
    requires
        zonal::is_adding(plus),
        plus.ensures((a.sum, b.sum), sum),
        a.count + b.count <= usize::MAX,
    ensures
        ({
            let m = zonal::merged(a, b, plus);
            &&& m.sum == sum
            &&& m.count == a.count + b.count
            &&& m.minimum == a.minimum || m.minimum == b.minimum
            &&& m.maximum == a.maximum || m.maximum == b.maximum
            &&& !a.minimum.nan() ==> !m.minimum.nan() && m.minimum.place() <= a.minimum.place()
            &&& !b.minimum.nan() ==> !m.minimum.nan() && m.minimum.place() <= b.minimum.place()
            &&& !a.maximum.nan() ==> !m.maximum.nan() && m.maximum.place() >= a.maximum.place()
            &&& !b.maximum.nan() ==> !m.maximum.nan() && m.maximum.place() >= b.maximum.place()
        }),
{
    let r = zonal::sum_of(plus, a.sum, b.sum);
    assert(plus.ensures((a.sum, b.sum), r));
}

/// Where sums commute, it does not matter which part comes first.
pub proof fn either_part_may_come_first<F: Fn(Real, Real) -> Real>(
    a: PixelStatistics,
    b: PixelStatistics,
    plus: F,
)
    requires
        sums_commute(plus),
        a.count + b.count <= usize::MAX,
        !a.minimum.nan(),
        !a.maximum.nan(),
        !b.minimum.nan(),
        !b.maximum.nan(),
    ensures
        ({
            let x = zonal::merged(a, b, plus);
            let y = zonal::merged(b, a, plus);
            &&& x.count == y.count
            &&& x.sum == y.sum
            &&& x.minimum.equals(y.minimum)
            &&& x.maximum.equals(y.maximum)
        }),
{
    assert(zonal::sum_of(plus, a.sum, b.sum) == zonal::sum_of(plus, b.sum, a.sum));
}

/// A pixel taken in adds its value to the sum.
pub proof fn a_pixel_adds_its_value<F: Fn(Real, Real) -> Real>(
    s: PixelStatistics,
    v: Real,
    plus: F,
    sum: Real,
)
    requires
        zonal::is_adding(plus),
        plus.ensures((s.sum, v), sum),
        s.count < usize::MAX,
    ensures
        zonal::with_pixel(s, v, plus).sum == sum,
        zonal::with_pixel(s, v, plus).count == s.count + 1,
{
    let r = zonal::sum_of(plus, s.sum, v);
    assert(plus.ensures((s.sum, v), r));
}

// Zones.

/// The pixels that do not count for a zone: those without a value and those
/// with another label or none.
pub open spec fn not_of_zone(
    nodata: Seq<bool>,
    labels: Seq<Option<u64>>,
    id: u64,
) -> Seq<bool> {
    Seq::new(nodata.len(), |i: int| nodata[i] || labels[i] != Some(id))
}

/// The reduction of a zone is the reduction of the pixels labelled with it,
/// as if no other pixel were there.
pub proof fn a_zone_is_the_reduction_of_its_pixels<F: Fn(Real, Real) -> Real>(
    data: Seq<Real>,
    nodata: Seq<bool>,
    labels: Seq<Option<u64>>,
    plus: F,
    id: u64,
    n: int,
)
    requires
        0 <= n <= data.len(),
        data.len() == nodata.len(),
        data.len() == labels.len(),
    ensures
        ({
            let m = zonal::accumulated(
                Map::<u64, PixelStatistics>::empty(),
                data,
                nodata,
                labels,
                plus,
                n,
            );
            &&& zonal::of_zone(m, id) == zonal::band_statistics(
                data,
                not_of_zone(nodata, labels, id),
                plus,
                n,
            )
            &&& m.contains_key(id) == exists|i: int|
                0 <= i < n && #[trigger] labels[i] == Some(id) && !nodata[i]
        }),
    decreases n,
{
    let none = Map::<u64, PixelStatistics>::empty();
    if n > 0 {
        a_zone_is_the_reduction_of_its_pixels(data, nodata, labels, plus, id, n - 1);
        let before = zonal::accumulated(none, data, nodata, labels, plus, n - 1);
        if labels[n - 1] == Some(id) && !nodata[n - 1] {
            assert(zonal::accumulated(none, data, nodata, labels, plus, n).contains_key(id));
        } else if before.contains_key(id) {
            let i = choose|i: int|
                0 <= i < n - 1 && #[trigger] labels[i] == Some(id) && !nodata[i];
            assert(labels[i] == Some(id));
        }
    }
}

/// Tile by tile is all at once: taking two tiles in, one after the other, is
/// taking in one tile that holds the pixels of both.
pub proof fn tile_by_tile_is_all_at_once<F: Fn(Real, Real) -> Real>(
    m: Map<u64, PixelStatistics>,
    a: Seq<Real>,
    no_a: Seq<bool>,
    labels_a: Seq<Option<u64>>,
    b: Seq<Real>,
    no_b: Seq<bool>,
    labels_b: Seq<Option<u64>>,
    plus: F,
    n: int,
)
    requires
        a.len() == no_a.len(),
        a.len() == labels_a.len(),
        b.len() == no_b.len(),
        b.len() == labels_b.len(),
        0 <= n <= b.len(),
    ensures
        zonal::accumulated(
            zonal::accumulated(m, a, no_a, labels_a, plus, a.len() as int),
            b,
            no_b,
            labels_b,
            plus,
            n,
        ) == zonal::accumulated(
            m,
            a + b,
            no_a + no_b,
            labels_a + labels_b,
            plus,
            a.len() + n,
        ),
    decreases n,
{
    if n > 0 {
        tile_by_tile_is_all_at_once(m, a, no_a, labels_a, b, no_b, labels_b, plus, n - 1);
        let k = a.len() + n - 1;
        assert((a + b)[k] == b[n - 1]);
        assert((no_a + no_b)[k] == no_b[n - 1]);
        assert((labels_a + labels_b)[k] == labels_b[n - 1]);
    } else {
        first_tile(m, a, no_a, labels_a, b, no_b, labels_b, plus, a.len() as int);
    }
}

proof fn first_tile<F: Fn(Real, Real) -> Real>(
    m: Map<u64, PixelStatistics>,
    a: Seq<Real>,
    no_a: Seq<bool>,
    labels_a: Seq<Option<u64>>,
    b: Seq<Real>,
    no_b: Seq<bool>,
    labels_b: Seq<Option<u64>>,
    plus: F,
    n: int,
)
    requires
        a.len() == no_a.len(),
        a.len() == labels_a.len(),
        0 <= n <= a.len(),
    ensures
        zonal::accumulated(m, a + b, no_a + no_b, labels_a + labels_b, plus, n)
            == zonal::accumulated(m, a, no_a, labels_a, plus, n),
    decreases n,
{
    if n > 0 {
        first_tile(m, a, no_a, labels_a, b, no_b, labels_b, plus, n - 1);
    }
}

/// Every zone that caught a pixel has one row with what was reduced of it,
/// and there is no other row.
pub proof fn every_zone_has_one_row(
    rows: Seq<FeatureStatistics>,
    m: Map<u64, PixelStatistics>,
    id: u64,
)
    requires
        zonal::rising_ids(rows),
        zonal::rows_of(rows, m),
    ensures
        m.contains_key(id) ==> exists|i: int|
            0 <= i < rows.len() && (#[trigger] rows[i]).feature_id == id && rows[i].statistics
                == m[id],
        forall|i: int|
            0 <= i < rows.len() && (#[trigger] rows[i]).feature_id == id ==> m.contains_key(id),
        forall|i: int, j: int|
            0 <= i < rows.len() && 0 <= j < rows.len() && (#[trigger] rows[i]).feature_id == id && (
            #[trigger] rows[j]).feature_id == id ==> i == j,
        forall|i: int, j: int|
            0 <= i < j < rows.len() ==> (#[trigger] rows[i]).feature_id < (
            #[trigger] rows[j]).feature_id,
{
    if m.contains_key(id) {
        assert(zonal::has_id(rows, id));
    }
}

} // verus!
