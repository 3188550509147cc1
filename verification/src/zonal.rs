//! Statistics of pixels, of a whole window or zone by zone, gathered tile
//! by tile. The sums are floating point, so adding is handed in.

use vstd::prelude::*;

use crate::number;
use crate::number::Real;
use crate::table;
use crate::table::{Table, TableKey};
use crate::window::Bbox;

verus! {

/// The numbers that a reduction can be asked for.
#[derive(Clone, Copy, Debug, PartialEq, Eq, Hash, Structural)]
pub enum Statistic {
    Mean,
    Minimum,
    Maximum,
    Sum,
    Count,
}

/// The reduction of some pixels. Without a pixel it has no minimum and no
/// maximum.
#[derive(Clone, Copy, Debug, PartialEq, Eq, Structural)]
pub struct PixelStatistics {
    pub count: usize,
    pub sum: Real,
    pub minimum: Real,
    pub maximum: Real,
}

pub open spec fn no_number() -> Real {
    Real { bits: number::NAN_BITS }
}

/// The reduction of no pixel.
pub open spec fn no_pixels() -> PixelStatistics {
    PixelStatistics {
        count: 0,
        sum: Real { bits: 0 },
        minimum: no_number(),
        maximum: no_number(),
    }
}

impl Default for PixelStatistics {
    fn default() -> (r: Self)
        ensures
            r == no_pixels(),
    {
        PixelStatistics {
            count: 0,
            sum: Real::zero(),
            minimum: Real::not_a_number(),
            maximum: Real::not_a_number(),
        }
    }
}

/// What the adding that is handed in gives.
pub open spec fn sum_of<F: Fn(Real, Real) -> Real>(plus: F, a: Real, b: Real) -> Real {
    choose|r: Real| plus.ensures((a, b), r)
}

/// Any two numbers can be added, and always to one sum.
pub open spec fn is_adding<F: Fn(Real, Real) -> Real>(plus: F) -> bool {
    &&& forall|a: Real, b: Real| #[trigger] plus.requires((a, b))
    &&& forall|a: Real, b: Real, r: Real, s: Real| #[trigger]
        plus.ensures((a, b), r) && #[trigger] plus.ensures((a, b), s) ==> r == s
}

fn added<F: Fn(Real, Real) -> Real>(plus: &F, a: Real, b: Real) -> (r: Real)
    requires
        is_adding(*plus),
    ensures
        r == sum_of(*plus, a, b),
{
    let r = plus(a, b);
    assert(plus.ensures((a, b), r));
    r
}

/// What the dividing by a count that is handed in gives.
pub open spec fn share_of<F: Fn(Real, usize) -> Real>(over: F, a: Real, n: usize) -> Real {
    choose|r: Real| over.ensures((a, n), r)
}

/// Any number can be divided by any count, and always to one quotient.
pub open spec fn is_dividing<F: Fn(Real, usize) -> Real>(over: F) -> bool {
    &&& forall|a: Real, n: usize| #[trigger] over.requires((a, n))
    &&& forall|a: Real, n: usize, r: Real, s: Real| #[trigger]
        over.ensures((a, n), r) && #[trigger] over.ensures((a, n), s) ==> r == s
}

/// What the number of a count that is handed in is.
pub open spec fn number_of_count<F: Fn(usize) -> Real>(whole: F, n: usize) -> Real {
    choose|r: Real| whole.ensures((n,), r)
}

/// Every count is one number.
pub open spec fn is_counting<F: Fn(usize) -> Real>(whole: F) -> bool {
    &&& forall|n: usize| #[trigger] whole.requires((n,))
    &&& forall|n: usize, r: Real, s: Real| #[trigger]
        whole.ensures((n,), r) && #[trigger] whole.ensures((n,), s) ==> r == s
}

/// A reduction with one more pixel.
pub open spec fn with_pixel<F: Fn(Real, Real) -> Real>(
    s: PixelStatistics,
    v: Real,
    plus: F,
) -> PixelStatistics {
    PixelStatistics {
        count: (s.count + 1) as usize,
        sum: sum_of(plus, s.sum, v),
        minimum: s.minimum.smaller(v),
        maximum: s.maximum.larger(v),
    }
}

/// Two reductions as one.
pub open spec fn merged<F: Fn(Real, Real) -> Real>(
    a: PixelStatistics,
    b: PixelStatistics,
    plus: F,
) -> PixelStatistics {
    PixelStatistics {
        count: (a.count + b.count) as usize,
        sum: sum_of(plus, a.sum, b.sum),
        minimum: a.minimum.smaller(b.minimum),
        maximum: a.maximum.larger(b.maximum),
    }
}

impl PixelStatistics {
    /// The mean, where there is a pixel.
    pub fn mean<F: Fn(Real, usize) -> Real>(&self, over: &F) -> (r: Real)
        requires
            is_dividing(*over),
        ensures
            r == (if self.count == 0 {
                no_number()
            } else {
                share_of(*over, self.sum, self.count)
            }),
    {
        if self.count == 0 {
            Real::not_a_number()
        } else {
            let r = over(self.sum, self.count);
            assert(over.ensures((self.sum, self.count), r));
            r
        }
    }

    /// One number of the reduction.
    pub fn value<F: Fn(Real, usize) -> Real, W: Fn(usize) -> Real>(
        &self,
        statistic: Statistic,
        over: &F,
        whole: &W,
    ) -> (r: Real)
        requires
            is_dividing(*over),
            is_counting(*whole),
        ensures
            r == (match statistic {
                Statistic::Mean => if self.count == 0 {
                    no_number()
                } else {
                    share_of(*over, self.sum, self.count)
                },
                Statistic::Minimum => self.minimum,
                Statistic::Maximum => self.maximum,
                Statistic::Sum => self.sum,
                Statistic::Count => number_of_count(*whole, self.count),
            }),
    {
        match statistic {
            Statistic::Mean => self.mean(over),
            Statistic::Minimum => self.minimum,
            Statistic::Maximum => self.maximum,
            Statistic::Sum => self.sum,
            Statistic::Count => {
                let r = whole(self.count);
                assert(whole.ensures((self.count,), r));
                r
            },
        }
    }

    /// Take another reduction in.
    pub fn merge<F: Fn(Real, Real) -> Real>(&mut self, other: &PixelStatistics, plus: &F)
        requires
            is_adding(*plus),
            old(self).count + other.count <= usize::MAX,
        ensures
            *final(self) == merged(*old(self), *other, *plus),
    {
        self.count = self.count + other.count;
        self.sum = added(plus, self.sum, other.sum);
        self.minimum = self.minimum.min(other.minimum);
        self.maximum = self.maximum.max(other.maximum);
    }

    /// Take a pixel in that has a value.
    pub fn take_pixel<F: Fn(Real, Real) -> Real>(&mut self, value: Real, plus: &F)
        requires
            is_adding(*plus),
            old(self).count < usize::MAX,
        ensures
            *final(self) == with_pixel(*old(self), value, *plus),
    {
        self.count = self.count + 1;
        self.sum = added(plus, self.sum, value);
        self.minimum = self.minimum.min(value);
        self.maximum = self.maximum.max(value);
    }
}

/// The reduction of the first `n` pixels of a band that have a value.
pub open spec fn band_statistics<F: Fn(Real, Real) -> Real>(
    data: Seq<Real>,
    nodata: Seq<bool>,
    plus: F,
    n: int,
) -> PixelStatistics
    decreases n,
{
    if n <= 0 {
        no_pixels()
    } else {
        let before = band_statistics(data, nodata, plus, n - 1);
        if nodata[n - 1] {
            before
        } else {
            with_pixel(before, data[n - 1], plus)
        }
    }
}

/// Reduce a band; `nodata` says which pixels have no value.
pub fn reduce_band<F: Fn(Real, Real) -> Real>(
    data: &Vec<Real>,
    nodata: &Vec<bool>,
    plus: &F,
) -> (r: PixelStatistics)
    requires
        data@.len() == nodata@.len(),
        is_adding(*plus),
    ensures
        r == band_statistics(data@, nodata@, *plus, data@.len() as int),
{
    let mut r = PixelStatistics::default();
    for i in 0..data.len()
        invariant
            data@.len() == nodata@.len(),
            is_adding(*plus),
            r.count <= i,
            r == band_statistics(data@, nodata@, *plus, i as int),
    {
        if !nodata[i] {
            r.take_pixel(data[i], plus);
        }
    }
    r
}

// Zones.

impl TableKey for u64 {
    fn same_key(&self, other: &Self) -> (r: bool) {
        *self == *other
    }
}

/// The reduction of a zone so far.
pub open spec fn of_zone(m: Map<u64, PixelStatistics>, id: u64) -> PixelStatistics {
    if m.contains_key(id) {
        m[id]
    } else {
        no_pixels()
    }
}

/// The reductions once the first `n` pixels of a tile were taken in. A
/// pixel counts for the zone it is labelled with, and for none where it has
/// no label or no value.
pub open spec fn accumulated<F: Fn(Real, Real) -> Real>(
    m: Map<u64, PixelStatistics>,
    data: Seq<Real>,
    nodata: Seq<bool>,
    labels: Seq<Option<u64>>,
    plus: F,
    n: int,
) -> Map<u64, PixelStatistics>
    decreases n,
{
    if n <= 0 {
        m
    } else {
        let before = accumulated(m, data, nodata, labels, plus, n - 1);
        match labels[n - 1] {
            Some(id) => if nodata[n - 1] {
                before
            } else {
                before.insert(id, with_pixel(of_zone(before, id), data[n - 1], plus))
            },
            None => before,
        }
    }
}

/// No zone has caught more than so many pixels.
pub open spec fn counts_below(m: Map<u64, PixelStatistics>, n: int) -> bool {
    forall|id: u64| #[trigger] m.contains_key(id) ==> m[id].count <= n
}

/// Take the pixels of a tile in, zone by zone.
pub fn accumulate_zones<F: Fn(Real, Real) -> Real>(
    data: &Vec<Real>,
    nodata: &Vec<bool>,
    labels: &Vec<Option<u64>>,
    merged: &mut Table<u64, PixelStatistics>,
    plus: &F,
)
    requires
        data@.len() == nodata@.len(),
        data@.len() == labels@.len(),
        is_adding(*plus),
        old(merged).wf(),
        counts_below(old(merged)@, usize::MAX - data@.len()),
    ensures
        final(merged).wf(),
        final(merged)@ == accumulated(
            old(merged)@,
            data@,
            nodata@,
            labels@,
            *plus,
            data@.len() as int,
        ),
{
    let ghost m = merged@;
    let n: usize = data.len();
    for i in 0..n
        invariant
            n == data@.len(),
            data@.len() == nodata@.len(),
            data@.len() == labels@.len(),
            is_adding(*plus),
            merged.wf(),
            counts_below(merged@, usize::MAX - n + i),
            merged@ == accumulated(m, data@, nodata@, labels@, *plus, i as int),
    {
        if let Some(id) = labels[i] {
            if !nodata[i] {
                let ghost before = merged@;
                let mut s = match merged.get(&id) {
                    Some(s) => *s,
                    None => PixelStatistics::default(),
                };
                assert(s == of_zone(before, id));
                s.take_pixel(data[i], plus);
                merged.insert(id, s);
                assert(counts_below(merged@, usize::MAX - n + i + 1)) by {
                    assert forall|k: u64| #[trigger] merged@.contains_key(k) implies merged@[k].count
                        <= usize::MAX - n + i + 1 by {
                        if k != id {
                            assert(before.contains_key(k));
                        }
                    }
                }
            }
        }
    }
}

/// One feature's reduction.
#[derive(Clone, Copy, Debug, PartialEq, Eq, Structural)]
pub struct FeatureStatistics {
    pub feature_id: u64,
    pub statistics: PixelStatistics,
}

/// Rows go up by id.
pub open spec fn rising_ids(rows: Seq<FeatureStatistics>) -> bool {
    forall|i: int, j: int|
        0 <= i < j < rows.len() ==> (#[trigger] rows[i]).feature_id < (#[trigger] rows[j]).feature_id
}

/// A row has an id.
pub open spec fn has_id(rows: Seq<FeatureStatistics>, id: u64) -> bool {
    exists|i: int| 0 <= i < rows.len() && (#[trigger] rows[i]).feature_id == id
}

spec fn listed_in(l: Seq<(u64, PixelStatistics)>, k: int, row: FeatureStatistics) -> bool {
    exists|j: int|
        0 <= j < k && #[trigger] l[j] == (row.feature_id, row.statistics)
}

/// Rows are the entries of a map.
pub open spec fn rows_of(rows: Seq<FeatureStatistics>, m: Map<u64, PixelStatistics>) -> bool {
    &&& forall|i: int|
        0 <= i < rows.len() ==> m.contains_key((#[trigger] rows[i]).feature_id)
            && m[rows[i].feature_id] == rows[i].statistics
    &&& forall|id: u64| #[trigger] m.contains_key(id) ==> has_id(rows, id)
}

/// One row per zone that caught a pixel, by id.
pub fn feature_rows(merged: &Table<u64, PixelStatistics>) -> (rows: Vec<FeatureStatistics>)
    requires
        merged.wf(),
    ensures
        rising_ids(rows@),
        rows_of(rows@, merged@),
{
    let ghost l = merged.listing();
    proof {
        merged.listing_is_complete();
    }
    let n: usize = merged.len();
    let mut rows: Vec<FeatureStatistics> = Vec::new();
    for k in 0..n
        invariant
            merged.wf(),
            l == merged.listing(),
            n == l.len(),
            table::distinct_keys(l),
            rows@.len() == k,
            rising_ids(rows@),
            forall|i: int| 0 <= i < rows@.len() ==> listed_in(l, k as int, #[trigger] rows@[i]),
            forall|j: int| 0 <= j < k ==> has_id(rows@, (#[trigger] l[j]).0),
    {
        let id: u64 = merged.key_at(k);
        let statistics = *merged.value_at(k);
        let mut p: usize = 0;
        while p < rows.len() && rows[p].feature_id < id
            invariant
                p <= rows@.len(),
                forall|i: int| 0 <= i < p ==> (#[trigger] rows@[i]).feature_id < id,
            decreases rows@.len() - p,
        {
            p = p + 1;
        }
        let ghost before = rows@;
        proof {
            if p < rows@.len() {
                let row = rows@[p as int];
                assert(listed_in(l, k as int, row));
                let j = choose|j: int|
                    0 <= j < k && #[trigger] l[j] == (row.feature_id, row.statistics);
                assert(l[j].0 != l[k as int].0);
            }
        }
        rows.insert(p, FeatureStatistics { feature_id: id, statistics });
        proof {
            assert forall|i: int| 0 <= i < rows@.len() implies listed_in(
                l,
                k + 1,
                #[trigger] rows@[i],
            ) by {
                let row = rows@[i];
                if i == p {
                    assert(l[k as int] == (row.feature_id, row.statistics));
                } else {
                    let o = if i < p {
                        i
                    } else {
                        i - 1
                    };
                    assert(row == before[o]);
                    assert(listed_in(l, k as int, before[o]));
                    let j = choose|j: int|
                        0 <= j < k && #[trigger] l[j] == (row.feature_id, row.statistics);
                    assert(l[j] == (row.feature_id, row.statistics));
                }
            }
            assert forall|j: int| 0 <= j < k + 1 implies has_id(rows@, (#[trigger] l[j]).0) by {
                if j == k {
                    assert(rows@[p as int].feature_id == l[j].0);
                } else {
                    assert(has_id(before, l[j].0));
                    let i = choose|i: int|
                        0 <= i < before.len() && (#[trigger] before[i]).feature_id == l[j].0;
                    let o = if i < p {
                        i
                    } else {
                        i + 1
                    };
                    assert(rows@[o].feature_id == l[j].0);
                }
            }
        }
    }
    proof {
        assert forall|i: int| 0 <= i < rows@.len() implies merged@.contains_key(
            (#[trigger] rows@[i]).feature_id,
        ) && merged@[rows@[i].feature_id] == rows@[i].statistics by {
            let row = rows@[i];
            assert(listed_in(l, n as int, row));
            let j = choose|j: int|
                0 <= j < n && #[trigger] l[j] == (row.feature_id, row.statistics);
            assert(merged@.contains_key(l[j].0));
        }
        assert forall|id: u64| #[trigger] merged@.contains_key(id) implies has_id(rows@, id) by {
            let j = choose|j: int| 0 <= j < l.len() && #[trigger] l[j].0 == id;
            assert(l[j].0 == id);
        }
    }
    rows
}

/// The part that two boxes share, where it has an area.
pub fn intersection(a: &Bbox, b: &Bbox) -> (r: Option<Bbox>)
    ensures
        ({
            let shared = Bbox {
                min_x: a.min_x.larger(b.min_x),
                min_y: a.min_y.larger(b.min_y),
                max_x: a.max_x.smaller(b.max_x),
                max_y: a.max_y.smaller(b.max_y),
            };
            r == (if shared.min_x.below(shared.max_x) && shared.min_y.below(shared.max_y) {
                Some(shared)
            } else {
                None
            })
        }),
{
    let out = Bbox {
        min_x: a.min_x.max(b.min_x),
        min_y: a.min_y.max(b.min_y),
        max_x: a.max_x.min(b.max_x),
        max_y: a.max_y.min(b.max_y),
    };
    if out.min_x.lt(out.max_x) && out.min_y.lt(out.max_y) {
        Some(out)
    } else {
        None
    }
}

// Laws.

/// The reduction of no pixel changes no count and no extreme.
pub proof fn an_empty_part_changes_nothing<F: Fn(Real, Real) -> Real>(a: PixelStatistics, plus: F)
    ensures
        merged(a, no_pixels(), plus).count == a.count,
        merged(a, no_pixels(), plus).minimum.equals(a.minimum) || a.minimum.nan(),
        merged(a, no_pixels(), plus).maximum.equals(a.maximum) || a.maximum.nan(),
        !a.minimum.nan() ==> merged(a, no_pixels(), plus).minimum == a.minimum,
        !a.maximum.nan() ==> merged(a, no_pixels(), plus).maximum == a.maximum,
{
}

/// Reductions of parts have the count and the extremes of the whole,
/// whichever way the parts are grouped.
pub proof fn grouping_does_not_matter<F: Fn(Real, Real) -> Real>(
    a: PixelStatistics,
    b: PixelStatistics,
    c: PixelStatistics,
    plus: F,
)
    requires
        a.count + b.count + c.count <= usize::MAX,
    ensures
        ({
            let left = merged(merged(a, b, plus), c, plus);
            let right = merged(a, merged(b, c, plus), plus);
            &&& left.count == right.count
            &&& left.minimum == right.minimum
            &&& left.maximum == right.maximum
        }),
{
}

/// The counts of a zone and of the pixels taken in agree: a tile adds to a
/// zone as many as it labels with it and has a value at.
pub open spec fn labelled(
    nodata: Seq<bool>,
    labels: Seq<Option<u64>>,
    id: u64,
    n: int,
) -> nat
    decreases n,
{
    if n <= 0 {
        0
    } else {
        labelled(nodata, labels, id, n - 1) + (if labels[n - 1] == Some(id) && !nodata[n - 1] {
            1nat
        } else {
            0
        })
    }
}

/// A tile adds to each zone the pixels that it labels with it and has a
/// value at, and to no other zone.
pub proof fn every_pixel_counts_once<F: Fn(Real, Real) -> Real>(
    m: Map<u64, PixelStatistics>,
    data: Seq<Real>,
    nodata: Seq<bool>,
    labels: Seq<Option<u64>>,
    plus: F,
    id: u64,
    n: int,
)
    requires
        0 <= n <= data.len(),
        of_zone(m, id).count + n <= usize::MAX,
    ensures
        of_zone(accumulated(m, data, nodata, labels, plus, n), id).count == of_zone(m, id).count
            + labelled(nodata, labels, id, n),
        labelled(nodata, labels, id, n) <= n,
    decreases n,
{
    if n > 0 {
        every_pixel_counts_once(m, data, nodata, labels, plus, id, n - 1);
    }
}

} // verus!
