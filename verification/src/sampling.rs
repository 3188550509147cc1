//! Rasters sampled at places between their cells. Which four cells a place
//! lies between, and how they are weighted, is floating-point work and
//! handed in.

use vstd::prelude::*;

use crate::chunk::{Band, Coord, Placement, RasterChunk};
use crate::number::Real;
use crate::resample;
use crate::resample::Sample;

verus! {

/// The upper left one of the four cells, by row and column, that a place
/// lies between on a raster.
pub open spec fn locates<L: Fn(&Placement, Coord) -> (i64, i64)>(
    l: L,
    on: Placement,
    at: Coord,
    cell: (i64, i64),
) -> bool {
    l.ensures((&on, at), cell)
}

/// The value that four cells blend to at a place.
pub open spec fn blends<X: Fn(&Placement, Coord, (Real, Real, Real, Real)) -> Real>(
    x: X,
    on: Placement,
    at: Coord,
    cells: (Real, Real, Real, Real),
    v: Real,
) -> bool {
    x.ensures((&on, at, cells), v)
}

/// Any place can be located and any cells blended.
pub open spec fn can_sample<
    L: Fn(&Placement, Coord) -> (i64, i64),
    X: Fn(&Placement, Coord, (Real, Real, Real, Real)) -> Real,
>(l: L, x: X) -> bool {
    &&& forall|on: Placement, at: Coord| #[trigger] l.requires((&on, at))
    &&& forall|on: Placement, at: Coord, cells: (Real, Real, Real, Real)| #[trigger]
        x.requires((&on, at, cells))
}

/// A band of a raster, with a flag for each cell that has no value.
pub struct Plane {
    pub data: Seq<Real>,
    pub nodata: Seq<bool>,
    pub width: int,
    pub height: int,
    pub place: Placement,
}

/// The value of a plane at a place: out of the four cells around it where
/// all have one, else that of the first that has. A place past the last
/// cell that can be counted has none.
pub open spec fn is_sample<
    L: Fn(&Placement, Coord) -> (i64, i64),
    X: Fn(&Placement, Coord, (Real, Real, Real, Real)) -> Real,
>(l: L, x: X, p: Plane, at: Coord, r: Option<Real>) -> bool {
    exists|cell: (i64, i64)| #[trigger]
        locates(l, p.place, at, cell) && if cell.0 == i64::MAX || cell.1 == i64::MAX {
            r is None
        } else {
            match resample::sampled(
                p.data,
                p.nodata,
                p.width,
                p.height,
                cell.0 as int,
                cell.1 as int,
            ) {
                Sample::Blend(a, b, c, d) => r matches Some(v) && blends(
                    x,
                    p.place,
                    at,
                    (a, b, c, d),
                    v,
                ),
                Sample::Take(v) => r == Some(v),
                Sample::Nothing => r is None,
            }
        }
}

/// A band of a raster.
pub open spec fn plane_of(chunk: RasterChunk, nodata: Seq<Vec<bool>>, b: int) -> Plane {
    Plane {
        data: chunk.bands@[b].data@,
        nodata: nodata[b]@,
        width: chunk.width as int,
        height: chunk.height as int,
        place: chunk.place,
    }
}

/// A raster is whole and each of its cells flagged.
pub open spec fn is_flagged(chunk: RasterChunk, nodata: Seq<Vec<bool>>) -> bool {
    &&& chunk.wf()
    &&& nodata.len() == chunk.bands@.len()
    &&& forall|b: int|
        0 <= b < nodata.len() ==> (#[trigger] nodata[b])@.len() == chunk.width * chunk.height
}

/// What a plane holds at places.
pub open spec fn are_samples<
    L: Fn(&Placement, Coord) -> (i64, i64),
    X: Fn(&Placement, Coord, (Real, Real, Real, Real)) -> Real,
>(l: L, x: X, p: Plane, places: Seq<Coord>, r: Seq<Option<Real>>) -> bool {
    &&& r.len() == places.len()
    &&& forall|i: int| 0 <= i < r.len() ==> is_sample(l, x, p, places[i], #[trigger] r[i])
}

fn sample_band<
    L: Fn(&Placement, Coord) -> (i64, i64),
    X: Fn(&Placement, Coord, (Real, Real, Real, Real)) -> Real,
>(
    l: &L,
    x: &X,
    chunk: &RasterChunk,
    nodata: &Vec<Vec<bool>>,
    b: usize,
    places: &Vec<Coord>,
) -> (r: Vec<Option<Real>>)
    requires
        can_sample(*l, *x),
        is_flagged(*chunk, nodata@),
        b < chunk.bands@.len(),
    ensures
        are_samples(*l, *x, plane_of(*chunk, nodata@, b as int), places@, r@),
{
    let ghost p = plane_of(*chunk, nodata@, b as int);
    let band = &chunk.bands[b];
    let flags = &nodata[b];
    assert(band.data@.len() == chunk.width * chunk.height);
    assert(nodata@[b as int]@.len() == chunk.width * chunk.height);
    let mut out: Vec<Option<Real>> = Vec::new();
    for i in 0..places.len()
        invariant
            can_sample(*l, *x),
            p == plane_of(*chunk, nodata@, b as int),
            p.data == band.data@,
            p.nodata == flags@,
            band.data@.len() == chunk.width * chunk.height,
            flags@.len() == chunk.width * chunk.height,
            out@.len() == i,
            forall|k: int|
                0 <= k < i ==> is_sample(*l, *x, p, places@[k], #[trigger] out@[k]),
    {
        let at: Coord = places[i];
        let cell: (i64, i64) = l(&chunk.place, at);
        assert(locates(*l, p.place, at, cell));
        let v: Option<Real> = if cell.0 == i64::MAX || cell.1 == i64::MAX {
            None
        } else {
            match resample::sample(&band.data, flags, chunk.width, chunk.height, cell.0, cell.1) {
                Sample::Blend(a, b, c, d) => {
                    let v: Real = x(&chunk.place, at, (a, b, c, d));
                    assert(blends(*x, p.place, at, (a, b, c, d), v));
                    Some(v)
                },
                Sample::Take(v) => Some(v),
                Sample::Nothing => None,
            }
        };
        assert(is_sample(*l, *x, p, at, v));
        out.push(v);
    }
    out
}

/// What each band of a raster holds at places.
pub fn sample_bands<
    L: Fn(&Placement, Coord) -> (i64, i64),
    X: Fn(&Placement, Coord, (Real, Real, Real, Real)) -> Real,
>(l: &L, x: &X, chunk: &RasterChunk, nodata: &Vec<Vec<bool>>, places: &Vec<Coord>) -> (r: Vec<
    Vec<Option<Real>>,
>)
    requires
        can_sample(*l, *x),
        is_flagged(*chunk, nodata@),
    ensures
        r@.len() == chunk.bands@.len(),
        forall|b: int|
            0 <= b < r@.len() ==> are_samples(
                *l,
                *x,
                plane_of(*chunk, nodata@, b),
                places@,
                (#[trigger] r@[b])@,
            ),
{
    let mut out: Vec<Vec<Option<Real>>> = Vec::new();
    for b in 0..chunk.bands.len()
        invariant
            can_sample(*l, *x),
            is_flagged(*chunk, nodata@),
            out@.len() == b,
            forall|k: int|
                0 <= k < b ==> are_samples(
                    *l,
                    *x,
                    plane_of(*chunk, nodata@, k),
                    places@,
                    (#[trigger] out@[k])@,
                ),
    {
        out.push(sample_band(l, x, chunk, nodata, b, places));
    }
    out
}

/// A value, or the one that stands for none.
pub open spec fn or_else(v: Option<Real>, none: Real) -> Real {
    match v {
        Some(v) => v,
        None => none,
    }
}

/// A band is what a plane holds at places, its no-data value where that is
/// nothing.
pub open spec fn is_resampled<
    L: Fn(&Placement, Coord) -> (i64, i64),
    X: Fn(&Placement, Coord, (Real, Real, Real, Real)) -> Real,
>(l: L, x: X, p: Plane, none: Real, places: Seq<Coord>, r: Band) -> bool {
    &&& r.nodata == none
    &&& exists|samples: Seq<Option<Real>>| #[trigger]
        are_samples(l, x, p, places, samples) && r.data@ == Seq::new(
            samples.len(),
            |i: int| or_else(samples[i], none),
        )
}

fn fill(samples: &Vec<Option<Real>>, none: Real) -> (r: Band)
    ensures
        r.nodata == none,
        r.data@ == Seq::new(samples@.len(), |i: int| or_else(samples@[i], none)),
{
    let ghost want = Seq::new(samples@.len(), |i: int| or_else(samples@[i], none));
    let mut data: Vec<Real> = Vec::new();
    for i in 0..samples.len()
        invariant
            want == Seq::new(samples@.len(), |i: int| or_else(samples@[i], none)),
            data@ == want.take(i as int),
    {
        let v: Real = match samples[i] {
            Some(v) => v,
            None => none,
        };
        data.push(v);
        assert(data@ =~= want.take(i + 1));
    }
    assert(data@ =~= want);
    Band { nodata: none, data }
}

/// A raster holds, band by band, what another holds at the centres of its
/// pixels.
pub open spec fn lies_on<
    L: Fn(&Placement, Coord) -> (i64, i64),
    X: Fn(&Placement, Coord, (Real, Real, Real, Real)) -> Real,
>(
    l: L,
    x: X,
    src: RasterChunk,
    nodata: Seq<Vec<bool>>,
    centers: Seq<Coord>,
    r: RasterChunk,
) -> bool {
    &&& r.wf()
    &&& r.bands@.len() == src.bands@.len()
    &&& forall|b: int|
        0 <= b < r.bands@.len() ==> is_resampled(
            l,
            x,
            plane_of(src, nodata, b),
            src.bands@[b].nodata,
            centers,
            #[trigger] r.bands@[b],
        )
}

/// A raster on another grid: what it holds at the centres of the grid's
/// pixels, which are handed in row by row.
pub fn resample_to_grid<
    L: Fn(&Placement, Coord) -> (i64, i64),
    X: Fn(&Placement, Coord, (Real, Real, Real, Real)) -> Real,
>(
    l: &L,
    x: &X,
    src: &RasterChunk,
    nodata: &Vec<Vec<bool>>,
    centers: &Vec<Coord>,
    cols: usize,
    rows: usize,
    place: Placement,
) -> (r: RasterChunk)
    requires
        can_sample(*l, *x),
        is_flagged(*src, nodata@),
        centers@.len() == cols * rows,
    ensures
        r.width == cols,
        r.height == rows,
        r.place == place,
        lies_on(*l, *x, *src, nodata@, centers@, r),
{
    let mut bands: Vec<Band> = Vec::new();
    for b in 0..src.bands.len()
        invariant
            can_sample(*l, *x),
            is_flagged(*src, nodata@),
            centers@.len() == cols * rows,
            bands@.len() == b,
            forall|k: int|
                0 <= k < b ==> (#[trigger] bands@[k]).data@.len() == cols * rows && is_resampled(
                    *l,
                    *x,
                    plane_of(*src, nodata@, k),
                    src.bands@[k].nodata,
                    centers@,
                    bands@[k],
                ),
    {
        let samples = sample_band(l, x, src, nodata, b, centers);
        let band = fill(&samples, src.bands[b].nodata);
        assert(are_samples(*l, *x, plane_of(*src, nodata@, b as int), centers@, samples@));
        bands.push(band);
    }
    RasterChunk { width: cols, height: rows, bands, place }
}

} // verus!
