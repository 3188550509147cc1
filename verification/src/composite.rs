//! How the items over one window become one raster.

use vstd::prelude::*;

use crate::chunk;
use crate::chunk::{Band, BandModel, Placement, RasterChunk};
use crate::number::Real;
use crate::ranks;
use crate::stac::{Composite, MAX_PARALLEL_ITEM_READS};

verus! {

// The newest value wins.

/// The value of a pixel once the first `k` chunks have filled its gap.
pub open spec fn filled(own: Real, chunks: Seq<RasterChunk>, b: int, p: int, k: int) -> Real
    decreases k,
{
    if k <= 0 {
        own
    } else {
        let before = filled(own, chunks, b, p, k - 1);
        let c = chunks[k - 1];
        if before.nan() && b < c.bands@.len() && p < c.bands@[b].data@.len() {
            c.bands@[b].data@[p]
        } else {
            before
        }
    }
}

/// A raster whose gaps the first `k` chunks have filled.
pub open spec fn is_filling(
    r: RasterChunk,
    first: RasterChunk,
    chunks: Seq<RasterChunk>,
    k: int,
) -> bool {
    &&& r.width == first.width
    &&& r.height == first.height
    &&& r.place == first.place
    &&& r.bands@.len() == first.bands@.len()
    &&& forall|b: int| #![trigger r.bands@[b]]
        0 <= b < r.bands@.len() ==> {
            &&& r.bands@[b].nodata == first.bands@[b].nodata
            &&& r.bands@[b].data@ == Seq::new(
                first.bands@[b].data@.len(),
                |p: int| filled(first.bands@[b].data@[p], chunks, b, p, k),
            )
        }
}

fn fill_chunk(out: RasterChunk, chunk: &RasterChunk) -> (r: RasterChunk)
    requires
        chunk.bands@.len() <= out.bands@.len(),
    ensures
        is_filling(r, out, seq![*chunk], 1),
{
    let ghost one = seq![*chunk];
    let mut bands: Vec<Band> = Vec::new();
    let n: usize = out.bands.len();
    for b in 0..n
        invariant
            n == out.bands@.len(),
            one == seq![*chunk],
            bands@.len() == b,
            forall|i: int| #![trigger bands@[i]]
                0 <= i < b ==> bands@[i].nodata == out.bands@[i].nodata && bands@[i].data@
                    == Seq::new(
                    out.bands@[i].data@.len(),
                    |p: int| filled(out.bands@[i].data@[p], one, i, p, 1),
                ),
    {
        let dst = &out.bands[b];
        let mut data: Vec<Real> = Vec::new();
        let len: usize = dst.data.len();
        for p in 0..len
            invariant
                b < out.bands@.len(),
                *dst == out.bands@[b as int],
                len == dst.data@.len(),
                one == seq![*chunk],
                data@ == Seq::new(p as nat, |q: int| filled(dst.data@[q], one, b as int, q, 1)),
        {
            let own = dst.data[p];
            assert(filled(own, one, b as int, p as int, 0) == own);
            let value = if own.is_nan() && b < chunk.bands.len() && p < chunk.bands[b].data.len() {
                chunk.bands[b].data[p]
            } else {
                own
            };
            assert(value == filled(own, one, b as int, p as int, 1));
            data.push(value);
            assert(data@ =~= Seq::new(
                (p + 1) as nat,
                |q: int| filled(dst.data@[q], one, b as int, q, 1),
            ));
        }
        bands.push(Band { nodata: dst.nodata, data });
    }
    RasterChunk { width: out.width, height: out.height, bands, place: out.place }
}

proof fn fillings_add(
    r: RasterChunk,
    out: RasterChunk,
    first: RasterChunk,
    chunks: Seq<RasterChunk>,
    k: int,
)
    requires
        0 <= k < chunks.len(),
        is_filling(out, first, chunks, k),
        is_filling(r, out, seq![chunks[k]], 1),
    ensures
        is_filling(r, first, chunks, k + 1),
{
    let one = seq![chunks[k]];
    assert forall|b: int| #![trigger r.bands@[b]] 0 <= b < r.bands@.len() implies {
        &&& r.bands@[b].nodata == first.bands@[b].nodata
        &&& r.bands@[b].data@ == Seq::new(
            first.bands@[b].data@.len(),
            |p: int| filled(first.bands@[b].data@[p], chunks, b, p, k + 1),
        )
    } by {
        let o = out.bands@[b];
        assert forall|p: int| 0 <= p < o.data@.len() implies #[trigger] r.bands@[b].data@[p]
            == filled(first.bands@[b].data@[p], chunks, b, p, k + 1) by {
            assert(filled(o.data@[p], one, b, p, 0) == o.data@[p]);
            assert(r.bands@[b].data@[p] == filled(o.data@[p], one, b, p, 1));
        }
        assert(r.bands@[b].data@ =~= Seq::new(
            first.bands@[b].data@.len(),
            |p: int| filled(first.bands@[b].data@[p], chunks, b, p, k + 1),
        ));
    }
}

/// What has been merged so far and the chunks that come next, in order.
pub open spec fn stacked(merged: Option<RasterChunk>, chunks: Seq<RasterChunk>) -> Seq<
    RasterChunk,
> {
    match merged {
        Some(m) => seq![m] + chunks,
        None => chunks,
    }
}

/// Each chunk patches the gaps that the newer ones left.
pub fn fill_latest(merged: Option<RasterChunk>, chunks: Vec<RasterChunk>) -> (r: Option<
    RasterChunk,
>)
    requires
        forall|k: int|
            0 <= k < chunks@.len() ==> (#[trigger] chunks@[k]).bands@.len() <= stacked(
                merged,
                chunks@,
            )[0].bands@.len(),
    ensures
        ({
            let all = stacked(merged, chunks@);
            if all.len() == 0 {
                r is None
            } else {
                r matches Some(m) && is_filling(m, all[0], all.skip(1), all.len() - 1)
            }
        }),
{
    let ghost all = stacked(merged, chunks@);
    let mut rest = chunks;
    let first = match merged {
        Some(m) => m,
        None => {
            if rest.len() == 0 {
                return None;
            }
            rest.remove(0)
        },
    };
    let ghost head = first;
    let ghost tail = all.skip(1);
    assert(rest@ =~= tail);
    assert(head == all[0]);
    assert forall|k: int| 0 <= k < tail.len() implies (#[trigger] tail[k]).bands@.len()
        <= head.bands@.len() by {
        match merged {
            Some(_) => {
                assert(tail[k] == chunks@[k]);
            },
            None => {
                assert(tail[k] == chunks@[k + 1]);
            },
        }
    }
    let mut out = first;
    assert(is_filling(out, head, tail, 0)) by {
        assert forall|b: int| #![trigger out.bands@[b]] 0 <= b < out.bands@.len() implies
            out.bands@[b].data@ == Seq::new(
            head.bands@[b].data@.len(),
            |p: int| filled(head.bands@[b].data@[p], tail, b, p, 0),
        ) by {
            assert(out.bands@[b].data@ =~= Seq::new(
                head.bands@[b].data@.len(),
                |p: int| filled(head.bands@[b].data@[p], tail, b, p, 0),
            ));
        }
    }
    for k in 0..rest.len()
        invariant
            rest@ == tail,
            forall|k: int|
                0 <= k < tail.len() ==> (#[trigger] tail[k]).bands@.len() <= head.bands@.len(),
            is_filling(out, head, tail, k as int),
    {
        let ghost before = out;
        out = fill_chunk(out, &rest[k]);
        proof {
            fillings_add(out, before, head, tail, k as int);
        }
    }
    Some(out)
}

/// A pixel that a newer chunk has a value at keeps it whatever older chunks
/// hold.
pub proof fn newer_values_stay(own: Real, chunks: Seq<RasterChunk>, b: int, p: int, j: int, k: int)
    requires
        0 <= j <= k,
        !filled(own, chunks, b, p, j).nan(),
    ensures
        filled(own, chunks, b, p, k) == filled(own, chunks, b, p, j),
    decreases k,
{
    if j < k {
        newer_values_stay(own, chunks, b, p, j, k - 1);
    }
}

/// Filling in two goes is filling in one.
pub proof fn filling_in_waves(
    own: Real,
    first: Seq<RasterChunk>,
    second: Seq<RasterChunk>,
    b: int,
    p: int,
    k: int,
)
    requires
        0 <= k <= second.len(),
    ensures
        filled(own, first + second, b, p, first.len() + k) == filled(
            filled(own, first, b, p, first.len() as int),
            second,
            b,
            p,
            k,
        ),
    decreases k,
{
    if k > 0 {
        filling_in_waves(own, first, second, b, p, k - 1);
        assert((first + second)[first.len() + k - 1] == second[k - 1]);
    } else {
        prefix_fills(own, first, second, b, p, first.len() as int);
    }
}

proof fn prefix_fills(
    own: Real,
    first: Seq<RasterChunk>,
    second: Seq<RasterChunk>,
    b: int,
    p: int,
    k: int,
)
    requires
        0 <= k <= first.len(),
    ensures
        filled(own, first + second, b, p, k) == filled(own, first, b, p, k),
    decreases k,
{
    if k > 0 {
        prefix_fills(own, first, second, b, p, k - 1);
        assert((first + second)[k - 1] == first[k - 1]);
    }
}

/// Every pixel has a value in every band.
pub open spec fn is_complete(c: RasterChunk) -> bool {
    forall|b: int, p: int|
        0 <= b < c.bands@.len() && 0 <= p < c.bands@[b].data@.len() ==> !(
        #[trigger] c.bands@[b].data@[p]).nan()
}

/// Whether every pixel has a value in every band.
pub fn complete(c: &RasterChunk) -> (r: bool)
    ensures
        r == is_complete(*c),
{
    let n: usize = c.bands.len();
    for b in 0..n
        invariant
            n == c.bands@.len(),
            forall|i: int, p: int|
                0 <= i < b && 0 <= p < c.bands@[i].data@.len() ==> !(
                #[trigger] c.bands@[i].data@[p]).nan(),
    {
        let band = &c.bands[b];
        let len: usize = band.data.len();
        for p in 0..len
            invariant
                b < c.bands@.len(),
                *band == c.bands@[b as int],
                len == band.data@.len(),
                forall|q: int| 0 <= q < p ==> !(#[trigger] c.bands@[b as int].data@[q]).nan(),
        {
            if band.data[p].is_nan() {
                assert(c.bands@[b as int].data@[p as int].nan());
                return false;
            }
        }
    }
    true
}

/// Older chunks change nothing of a complete raster.
pub proof fn a_complete_raster_stays(c: RasterChunk, chunks: Seq<RasterChunk>, b: int, p: int, k: int)
    requires
        is_complete(c),
        0 <= b < c.bands@.len(),
        0 <= p < c.bands@[b].data@.len(),
        0 <= k,
    ensures
        filled(c.bands@[b].data@[p], chunks, b, p, k) == c.bands@[b].data@[p],
{
    newer_values_stay(c.bands@[b].data@[p], chunks, b, p, 0, k);
}

/// The next items to read: none once the raster is complete or the items
/// are used up, else as many as may be in flight.
pub fn next_wave(done: usize, total: usize, merged: Option<&RasterChunk>) -> (r: Option<
    (usize, usize),
>)
    requires
        done <= total,
    ensures
        r == (if done == total || (merged matches Some(m) && is_complete(*m)) {
            None
        } else if total - done > MAX_PARALLEL_ITEM_READS {
            Some((done, (done + MAX_PARALLEL_ITEM_READS) as usize))
        } else {
            Some((done, total))
        }),
{
    if done == total {
        return None;
    }
    if let Some(m) = merged {
        if complete(m) {
            return None;
        }
    }
    if total - done > MAX_PARALLEL_ITEM_READS {
        Some((done, done + MAX_PARALLEL_ITEM_READS))
    } else {
        Some((done, total))
    }
}

/// A raster without a value.
pub fn empty(width: usize, height: usize, count: u16, place: Placement) -> (r: RasterChunk)
    requires
        width * height <= usize::MAX,
    ensures
        r.width == width,
        r.height == height,
        r.place == place,
        chunk::bands_model(r.bands@) == Seq::new(
            count as nat,
            |b: int|
                (BandModel {
                    nodata: Real { bits: crate::number::NAN_BITS },
                    data: Seq::new(
                        (width * height) as nat,
                        |p: int| Real { bits: crate::number::NAN_BITS },
                    ),
                }),
        ),
{
    let ghost nan = Real { bits: crate::number::NAN_BITS };
    let mut bands: Vec<Band> = Vec::new();
    let n: usize = width * height;
    for b in 0..count
        invariant
            nan == (Real { bits: crate::number::NAN_BITS }),
            n == width * height,
            bands@.len() == b,
            forall|i: int|
                0 <= i < b ==> #[trigger] bands@[i]@ == (BandModel {
                    nodata: nan,
                    data: Seq::new(n as nat, |p: int| nan),
                }),
    {
        let mut data: Vec<Real> = Vec::new();
        for p in 0..n
            invariant
                nan == (Real { bits: crate::number::NAN_BITS }),
                data@ == Seq::new(p as nat, |q: int| nan),
        {
            data.push(Real::not_a_number());
            assert(data@ =~= Seq::new((p + 1) as nat, |q: int| nan));
        }
        let band = Band { nodata: Real::not_a_number(), data };
        assert(band@ =~= BandModel { nodata: nan, data: Seq::new(n as nat, |p: int| nan) });
        bands.push(band);
    }
    let r = RasterChunk { width, height, bands, place };
    assert forall|b: int| 0 <= b < count implies #[trigger] chunk::bands_model(r.bands@)[b] == (
    BandModel {
        nodata: Real { bits: crate::number::NAN_BITS },
        data: Seq::new((width * height) as nat, |p: int| Real { bits: crate::number::NAN_BITS }),
    }) by {
        assert(r.bands@[b]@.data =~= Seq::new(
            (width * height) as nat,
            |p: int| Real { bits: crate::number::NAN_BITS },
        ));
    }
    assert(chunk::bands_model(r.bands@) =~= Seq::new(
        count as nat,
        |b: int|
            (BandModel {
                nodata: Real { bits: crate::number::NAN_BITS },
                data: Seq::new(
                    (width * height) as nat,
                    |p: int| Real { bits: crate::number::NAN_BITS },
                ),
            }),
    ));
    r
}

// One value out of a stack.

/// What a stack of values comes to, as far as it is one of them. The rest
/// is arithmetic on what is handed out.
#[derive(Debug)]
pub enum Reduced {
    /// This value.
    Value(Real),
    /// Half way between these two.
    Halfway(Real, Real),
    /// How many values there are.
    Count(usize),
    /// The mean of these.
    Mean(Vec<Real>),
    /// The spread of these.
    StdDev(Vec<Real>),
    /// This percent of the way up these, which go up.
    Percentile(Vec<Real>, Real),
}

/// The most that a percentile can be: a hundred.
pub const MAX_PERCENT: u64 = 0x4059000000000000;

/// A percent kept between nothing and a hundred.
pub open spec fn clamped(percent: Real) -> Real {
    let none = Real { bits: 0 };
    let all = Real { bits: MAX_PERCENT };
    if percent.below(none) {
        none
    } else if all.below(percent) {
        all
    } else {
        percent
    }
}

fn clamp(percent: Real) -> (r: Real)
    ensures
        r == clamped(percent),
{
    let none = Real::zero();
    let all = Real::from_bits(MAX_PERCENT);
    if percent.lt(none) {
        none
    } else if all.lt(percent) {
        all
    } else {
        percent
    }
}

/// What a stack of finite values comes to.
pub open spec fn is_reduced(r: Reduced, vals: Seq<Real>, op: Composite) -> bool {
    if vals.len() == 0 {
        r == Reduced::Value(Real { bits: crate::number::NAN_BITS })
    } else {
        match op {
            Composite::Latest => r == Reduced::Value(vals[0]),
            Composite::Mean => r matches Reduced::Mean(v) && v@ == vals,
            Composite::Min => r == Reduced::Value(
                ranks::least(vals, Real { bits: crate::number::INFINITY_BITS }),
            ),
            Composite::Max => r == Reduced::Value(
                ranks::greatest(
                    vals,
                    Real { bits: (crate::number::INFINITY_BITS + crate::number::SIGN_BIT) as u64 },
                ),
            ),
            Composite::Median => exists|s: Seq<Real>| #[trigger]
                ranks::ranked(s) && s.to_multiset() == vals.to_multiset() && s.len() == vals.len()
                    && r == (if vals.len() % 2 == 1 {
                    Reduced::Value(s[vals.len() as int / 2])
                } else {
                    Reduced::Halfway(s[vals.len() as int / 2 - 1], s[vals.len() as int / 2])
                }),
            Composite::Percentile(percent) => r matches Reduced::Percentile(s, p) && p == clamped(
                percent,
            ) && ranks::ranked(s@) && s@.to_multiset() == vals.to_multiset(),
            Composite::StdDev => r matches Reduced::StdDev(v) && v@ == vals,
            Composite::Count => r == Reduced::Count(vals.len() as usize),
        }
    }
}

/// Reduce one pixel's finite values, newest first, to one.
pub fn reduce_values(vals: Vec<Real>, op: Composite) -> (r: Reduced)
    ensures
        is_reduced(r, vals@, op),
{
    let n: usize = vals.len();
    if n == 0 {
        return Reduced::Value(Real::not_a_number());
    }
    match op {
        Composite::Latest => Reduced::Value(vals[0]),
        Composite::Mean => Reduced::Mean(vals),
        Composite::Min => Reduced::Value(ranks::least_of(&vals, Real::infinity())),
        Composite::Max => Reduced::Value(ranks::greatest_of(&vals, Real::neg_infinity())),
        Composite::Median => {
            let s = ranks::sort_total(&vals);
            let mid: usize = n / 2;
            assert(ranks::ranked(s@));
            if n % 2 == 1 {
                Reduced::Value(s[mid])
            } else {
                Reduced::Halfway(s[mid - 1], s[mid])
            }
        },
        Composite::Percentile(percent) => Reduced::Percentile(
            ranks::sort_total(&vals),
            clamp(percent),
        ),
        Composite::StdDev => Reduced::StdDev(vals),
        Composite::Count => Reduced::Count(n),
    }
}

/// The finite values of the first `k` chunks at a pixel, in order.
pub open spec fn stack_at(chunks: Seq<RasterChunk>, b: int, p: int, k: int) -> Seq<Real>
    decreases k,
{
    if k <= 0 {
        Seq::empty()
    } else {
        let before = stack_at(chunks, b, p, k - 1);
        let v = chunks[k - 1].bands@[b].data@[p];
        if v.finite() {
            before.push(v)
        } else {
            before
        }
    }
}

/// Chunks have a band of that many pixels at every index below a count.
pub open spec fn covers(chunks: Seq<RasterChunk>, count: int, pixels: int) -> bool {
    forall|k: int, b: int| #![trigger chunks[k].bands@[b]]
        0 <= k < chunks.len() && 0 <= b < count ==> b < chunks[k].bands@.len()
            && chunks[k].bands@[b].data@.len() >= pixels
}

/// Every pixel of every band reduced over all chunks, a chunk per item.
pub fn reduce_chunks(chunks: &Vec<RasterChunk>, count: u16, op: Composite) -> (r: Vec<Vec<Reduced>>)
    requires
        chunks@.len() > 0,
        chunks@[0].width * chunks@[0].height <= usize::MAX,
        covers(chunks@, count as int, chunks@[0].width * chunks@[0].height),
        forall|k: int| 0 <= k < chunks@.len() ==> (#[trigger] chunks@[k]).bands@.len() >= count,
    ensures
        r@.len() == count,
        forall|b: int| #![trigger r@[b]]
            0 <= b < count ==> r@[b]@.len() == chunks@[0].width * chunks@[0].height && forall|
                p: int,
            | #![trigger r@[b]@[p]]
                0 <= p < r@[b]@.len() ==> is_reduced(
                    r@[b]@[p],
                    stack_at(chunks@, b, p, chunks@.len() as int),
                    op,
                ),
{
    let n: usize = chunks[0].width * chunks[0].height;
    let mut r: Vec<Vec<Reduced>> = Vec::new();
    for b in 0..count
        invariant
            chunks@.len() > 0,
            n == chunks@[0].width * chunks@[0].height,
            covers(chunks@, count as int, n as int),
            forall|k: int| 0 <= k < chunks@.len() ==> (#[trigger] chunks@[k]).bands@.len() >= count,
            r@.len() == b,
            forall|i: int| #![trigger r@[i]]
                0 <= i < b ==> r@[i]@.len() == n && forall|p: int| #![trigger r@[i]@[p]]
                    0 <= p < n ==> is_reduced(
                        r@[i]@[p],
                        stack_at(chunks@, i, p, chunks@.len() as int),
                        op,
                    ),
    {
        let mut data: Vec<Reduced> = Vec::new();
        for p in 0..n
            invariant
                b < count,
                chunks@.len() > 0,
                covers(chunks@, count as int, n as int),
                forall|k: int|
                    0 <= k < chunks@.len() ==> (#[trigger] chunks@[k]).bands@.len() >= count,
                data@.len() == p,
                forall|q: int| #![trigger data@[q]]
                    0 <= q < p ==> is_reduced(
                        data@[q],
                        stack_at(chunks@, b as int, q, chunks@.len() as int),
                        op,
                    ),
        {
            let mut vals: Vec<Real> = Vec::new();
            for k in 0..chunks.len()
                invariant
                    b < count,
                    p < n,
                    covers(chunks@, count as int, n as int),
                    forall|k: int|
                        0 <= k < chunks@.len() ==> (#[trigger] chunks@[k]).bands@.len() >= count,
                    vals@ == stack_at(chunks@, b as int, p as int, k as int),
            {
                let band = &chunks[k].bands[b as usize];
                assert(*band == chunks@[k as int].bands@[b as int]);
                let v = band.data[p];
                if v.is_finite() {
                    vals.push(v);
                }
            }
            data.push(reduce_values(vals, op));
        }
        r.push(data);
    }
    r
}

} // verus!
