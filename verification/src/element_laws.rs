//! What elements hand on, band by band and feature by feature.

use vstd::prelude::*;

use crate::bandwise;
use crate::bandwise::{BandFault, Cut};
use crate::chunk;
use crate::chunk::{
    Band, Coord, FeatureModel, GeometryModel, Placement, Point3, RasterChunk,
};
use crate::chunk_ops;
use crate::elements::Combine;
use crate::geometry;
use crate::geometry_laws;
use crate::las_source;
use crate::number::Real;
use crate::pixel_laws;
use crate::reproject;
use crate::resample;
use crate::resample::Sample;
use crate::sampling;
use crate::vec_source;
use crate::vector;
use crate::window::Bbox;

verus! {

// Kernels.

/// A kernel that hands a band on as it is.
pub open spec fn hands_on<P, E, K: Fn(&P, &RasterChunk, usize) -> Result<Band, E>>(
    k: K,
    p: P,
) -> bool {
    forall|input: RasterChunk, b: usize, r: Result<Band, E>| #[trigger]
        bandwise::makes(k, p, input, b, r) ==> (r matches Ok(made) && made.data@
            == input.bands@[b as int].data@ && made.nodata == input.bands@[b as int].nodata)
}

/// An element that works band by band makes each band of the same band of
/// its input, over the window asked for.
pub proof fn every_band_is_made_of_its_own<P, E, K: Fn(&P, &RasterChunk, usize) -> Result<Band, E>>(
    k: K,
    p: P,
    input: RasterChunk,
    cut: Cut,
    out: RasterChunk,
    b: int,
    r: int,
    c: int,
)
    requires
        hands_on(k, p),
        bandwise::made_of_each(k, p, input, cut, Ok(out)),
        0 <= b < input.bands@.len() <= usize::MAX,
        0 <= r < cut.rows,
        0 <= c < cut.cols,
        cut.row0 + cut.rows <= input.height,
        cut.col0 + cut.cols <= input.width,
    ensures
        out.bands@.len() == input.bands@.len(),
        out.place == cut.place,
        out.width == cut.cols,
        out.height == cut.rows,
        out.bands@[b].nodata == input.bands@[b].nodata,
        out.bands@[b].data@[r * out.width + c] == input.bands@[b].data@[(cut.row0 + r) * input.width
            + (cut.col0 + c)],
{
    let made = choose|made: Seq<Band>| #[trigger]
        bandwise::all_made(k, p, input, made) && made.len() == input.bands@.len()
            && bandwise::is_cut(chunk::bands_model(made), input, cut, out);
    assert(bandwise::makes(k, p, input, b as usize, Ok(made[b])));
    assert(chunk::bands_model(out.bands@).len() == input.bands@.len());
    assert(chunk::bands_model(out.bands@)[b] == chunk_ops::cropped_band(
        chunk::bands_model(made)[b],
        input.width as int,
        cut.col0 as int,
        cut.row0 as int,
        out.width as int,
        out.height as int,
    ));
    pixel_laws::a_cropped_band_is_a_window(
        made[b]@,
        input.width as int,
        cut.col0 as int,
        cut.row0 as int,
        out.width as int,
        out.height as int,
        r,
        c,
    );
    assert(out.bands@[b]@.data == out.bands@[b].data@);
}

/// An element of terrain makes one band, of the first of its input, over the
/// window asked for; without a band it fails.
pub proof fn terrain_is_made_of_the_first_band<
    P,
    E,
    K: Fn(&P, &RasterChunk, usize) -> Result<Band, E>,
>(
    k: K,
    p: P,
    input: RasterChunk,
    cut: Cut,
    made: Result<RasterChunk, BandFault<E>>,
    r: int,
    c: int,
)
    requires
        hands_on(k, p),
        bandwise::made_of_first(k, p, input, cut, made),
        0 <= r < cut.rows,
        0 <= c < cut.cols,
        cut.row0 + cut.rows <= input.height,
        cut.col0 + cut.cols <= input.width,
    ensures
        input.bands@.len() == 0 ==> (made matches Err(BandFault::Empty)),
        input.bands@.len() > 0 ==> (made matches Ok(out) && out.bands@.len() == 1 && out.width
            == cut.cols && out.height == cut.rows && out.place == cut.place
            && out.bands@[0].data@[r * out.width + c] == input.bands@[0].data@[(cut.row0 + r)
            * input.width + (cut.col0 + c)]),
{
    if input.bands@.len() > 0 {
        match made {
            Ok(out) => {
                let band = choose|band: Band| #[trigger]
                    bandwise::makes(k, p, input, 0, Ok(band)) && bandwise::is_cut(
                        seq![band@],
                        input,
                        cut,
                        out,
                    );
                assert(chunk::bands_model(out.bands@).len() == 1);
                assert(chunk::bands_model(out.bands@)[0] == chunk_ops::cropped_band(
                    seq![band@][0],
                    input.width as int,
                    cut.col0 as int,
                    cut.row0 as int,
                    out.width as int,
                    out.height as int,
                ));
                pixel_laws::a_cropped_band_is_a_window(
                    band@,
                    input.width as int,
                    cut.col0 as int,
                    cut.row0 as int,
                    out.width as int,
                    out.height as int,
                    r,
                    c,
                );
                assert(out.bands@[0]@.data == out.bands@[0].data@);
            },
            Err(BandFault::Empty) => {},
            Err(BandFault::Kernel(e)) => {
                assert(bandwise::makes(k, p, input, 0, Err(e)));
            },
        }
    }
}

/// Two rasters are combined band with band, the first raster's first.
pub proof fn bands_are_combined_in_pairs<E, K: Fn(&Combine, &Band, &Band) -> Result<Band, E>>(
    k: K,
    p: Combine,
    left: Seq<Band>,
    right: Seq<Band>,
    made: Seq<Band>,
    i: int,
)
    requires
        bandwise::pairs_made(k, p, left, right, made),
        0 <= i < made.len(),
    ensures
        k.ensures((&p, &left[i], &right[i]), Ok(made[i])),
{
    assert(bandwise::makes_of_two(k, p, left[i], right[i], Ok(made[i])));
}

// Samples.

/// A band that is sampled is its own: its cells, flags and place.
pub proof fn a_plane_is_its_band(chunk: RasterChunk, nodata: Seq<Vec<bool>>, b: int)
    ensures
        sampling::plane_of(chunk, nodata, b).data == chunk.bands@[b].data@,
        sampling::plane_of(chunk, nodata, b).nodata == nodata[b]@,
        sampling::plane_of(chunk, nodata, b).width == chunk.width,
        sampling::plane_of(chunk, nodata, b).height == chunk.height,
        sampling::plane_of(chunk, nodata, b).place == chunk.place,
{
}

/// A sample at a place is blended out of the four cells around it where all
/// have a value, the upper left, the upper right, the lower left and the
/// lower right; else it is the first of them that has one.
pub proof fn a_sample_is_blended_of_the_cells_around<
    L: Fn(&Placement, Coord) -> (i64, i64),
    X: Fn(&Placement, Coord, (Real, Real, Real, Real)) -> Real,
>(
    l: L,
    x: X,
    p: sampling::Plane,
    at: Coord,
    row: i64,
    col: i64,
    s: Option<Real>,
)
    requires
        forall|cell: (i64, i64)| #[trigger]
            sampling::locates(l, p.place, at, cell) ==> cell == (row, col),
        row < i64::MAX,
        col < i64::MAX,
        sampling::is_sample(l, x, p, at, s),
    ensures
        ({
            let w = p.width;
            let h = p.height;
            let a = pixel_laws::has_value(p.data, p.nodata, w, h, row as int, col as int);
            let b = pixel_laws::has_value(p.data, p.nodata, w, h, row as int, col + 1);
            let c = pixel_laws::has_value(p.data, p.nodata, w, h, row + 1, col as int);
            let d = pixel_laws::has_value(p.data, p.nodata, w, h, row + 1, col + 1);
            &&& a && b && c && d ==> (s matches Some(v) && x.ensures(
                (
                    &p.place,
                    at,
                    (
                        p.data[row * w + col],
                        p.data[row * w + (col + 1)],
                        p.data[(row + 1) * w + col],
                        p.data[(row + 1) * w + (col + 1)],
                    ),
                ),
                v,
            ))
            &&& a && !(b && c && d) ==> s == Some(p.data[row * w + col])
            &&& !a && b ==> s == Some(p.data[row * w + (col + 1)])
            &&& !a && !b && c ==> s == Some(p.data[(row + 1) * w + col])
            &&& !a && !b && !c && d ==> s == Some(p.data[(row + 1) * w + (col + 1)])
            &&& !a && !b && !c && !d ==> s is None
        }),
{
    let cell = choose|cell: (i64, i64)| #[trigger]
        sampling::locates(l, p.place, at, cell) && if cell.0 == i64::MAX || cell.1 == i64::MAX {
            s is None
        } else {
            match resample::sampled(
                p.data,
                p.nodata,
                p.width,
                p.height,
                cell.0 as int,
                cell.1 as int,
            ) {
                Sample::Blend(a, b, c, d) => s matches Some(v) && sampling::blends(
                    x,
                    p.place,
                    at,
                    (a, b, c, d),
                    v,
                ),
                Sample::Take(v) => s == Some(v),
                Sample::Nothing => s is None,
            }
        };
    assert(cell == (row, col));
    pixel_laws::a_sample_is_of_the_cells_around(
        p.data,
        p.nodata,
        p.width,
        p.height,
        row as int,
        col as int,
    );
}

/// A band on another grid holds at each pixel what the band holds at the
/// pixel's centre, and its value for no data where that is nothing.
pub proof fn a_resampled_band_holds_its_samples<
    L: Fn(&Placement, Coord) -> (i64, i64),
    X: Fn(&Placement, Coord, (Real, Real, Real, Real)) -> Real,
>(
    l: L,
    x: X,
    src: RasterChunk,
    nodata: Seq<Vec<bool>>,
    centers: Seq<Coord>,
    out: RasterChunk,
    b: int,
    i: int,
)
    requires
        sampling::lies_on(l, x, src, nodata, centers, out),
        0 <= b < src.bands@.len(),
        0 <= i < centers.len(),
    ensures
        out.bands@.len() == src.bands@.len(),
        out.bands@[b].nodata == src.bands@[b].nodata,
        out.bands@[b].data@.len() == centers.len(),
        exists|s: Option<Real>| #[trigger]
            sampling::is_sample(l, x, sampling::plane_of(src, nodata, b), centers[i], s)
                && out.bands@[b].data@[i] == (match s {
                Some(v) => v,
                None => src.bands@[b].nodata,
            }),
{
    let p = sampling::plane_of(src, nodata, b);
    assert(sampling::is_resampled(l, x, p, src.bands@[b].nodata, centers, out.bands@[b]));
    let samples = choose|samples: Seq<Option<Real>>| #[trigger]
        sampling::are_samples(l, x, p, centers, samples) && out.bands@[b].data@ == Seq::new(
            samples.len(),
            |i: int| sampling::or_else(samples[i], src.bands@[b].nodata),
        );
    assert(sampling::is_sample(l, x, p, centers[i], samples[i]));
}

// Reprojection.

/// Features whose coordinates come back as they went are as they were; each
/// keeps its id and its properties in any case.
pub proof fn an_unmoved_feature_stays(fs: Seq<FeatureModel>, to: Seq<Coord>, i: int)
    requires
        0 <= i < fs.len(),
    ensures
        reproject::moved(fs, to).len() == fs.len(),
        reproject::moved(fs, to)[i].id == fs[i].id,
        reproject::moved(fs, to)[i].properties == fs[i].properties,
        to == geometry::members_coords(vector::shapes(fs)) ==> reproject::moved(fs, to) == fs,
{
    if to == geometry::members_coords(vector::shapes(fs)) {
        let gs = vector::shapes(fs);
        geometry::rebuilding_undoes_collecting(GeometryModel::GeometryCollection(gs));
        assert(geometry::members_rebuilt(gs, to) == gs);
        assert(reproject::moved(fs, to) =~= fs);
    }
}

// Sources.

/// A level at which nothing is thinned and nothing too small holds every
/// feature as it is.
pub proof fn a_level_without_thinning_is_the_collection<
    S: Fn(&Vec<Coord>, Real) -> Vec<Coord>,
    T: Fn(&Bbox, Real) -> bool,
>(
    s: S,
    t: T,
    resolution: Real,
    fs: Seq<FeatureModel>,
    out: Seq<FeatureModel>,
    b: Bbox,
    n: int,
)
    requires
        0 <= n <= fs.len(),
        vec_source::levelled(s, t, resolution, fs, out, n),
        forall|line: Seq<Coord>, r: Seq<Coord>| #[trigger]
            vec_source::thins_to(s, line, resolution, r) ==> r == line,
        forall|around: Bbox, small: bool| #[trigger]
            vec_source::is_smaller(t, around, resolution, small) ==> !small,
        forall|i: int| 0 <= i < fs.len() ==> geometry_laws::lies_in((#[trigger] fs[i]).geometry, b, 4),
    ensures
        out == fs.take(n),
    decreases n,
{
    if n > 0 {
        let f = fs[n - 1];
        assert(geometry_laws::lies_in(f.geometry, b, 4));
        if vec_source::levels_to(s, t, resolution, f.geometry, None) {
            an_unthinned_geometry_stays(s, t, resolution, f.geometry, None, b);
        }
        an_unthinned_geometry_stays(
            s,
            t,
            resolution,
            f.geometry,
            Some(out.last().geometry),
            b,
        );
        a_level_without_thinning_is_the_collection(
            s,
            t,
            resolution,
            fs,
            out.drop_last(),
            b,
            n - 1,
        );
        assert(out.last() == f);
        assert(fs.take(n - 1).push(f) =~= fs.take(n));
        assert(out.drop_last().push(out.last()) =~= out);
    } else {
        assert(out =~= fs.take(0));
    }
}

/// A geometry that is not thinned and not too small is the same at a level.
pub proof fn an_unthinned_geometry_stays<
    S: Fn(&Vec<Coord>, Real) -> Vec<Coord>,
    T: Fn(&Bbox, Real) -> bool,
>(s: S, t: T, resolution: Real, g: GeometryModel, r: Option<GeometryModel>, b: Bbox)
    requires
        vec_source::levels_to(s, t, resolution, g, r),
        forall|line: Seq<Coord>, r: Seq<Coord>| #[trigger]
            vec_source::thins_to(s, line, resolution, r) ==> r == line,
        forall|around: Bbox, small: bool| #[trigger]
            vec_source::is_smaller(t, around, resolution, small) ==> !small,
        geometry_laws::lies_in(g, b, 4),
    ensures
        r == Some(g),
{
    let (pieces, small) = choose|pieces: Seq<Seq<Seq<Coord>>>, small: bool|
        {
            &&& #[trigger] vec_source::are_thinned(s, resolution, g, pieces)
            &&& #[trigger] vec_source::is_smaller(
                t,
                geometry::box_around(geometry::coords_of(g)),
                resolution,
                small,
            )
            &&& r == if small && !(g is Point) {
                None
            } else {
                vector::simplified(g, pieces)
            }
        };
    let ls = geometry::cuts_of(g);
    assert forall|i: int| 0 <= i < pieces.len() implies pieces[i] == geometry_laws::uncut(ls)[i] by {
        assert(pieces[i].len() == 1);
        assert(vec_source::thins_to(s, ls[i], resolution, pieces[i][0]));
        assert(pieces[i] =~= seq![ls[i]]);
    }
    assert(pieces =~= geometry_laws::uncut(ls));
    geometry_laws::what_is_not_thinned_stays(g, b);
}

/// What is smaller than a pixel goes from a level, unless it is a point.
pub proof fn what_is_too_small_goes<
    S: Fn(&Vec<Coord>, Real) -> Vec<Coord>,
    T: Fn(&Bbox, Real) -> bool,
>(s: S, t: T, resolution: Real, g: GeometryModel, r: Option<GeometryModel>)
    requires
        vec_source::levels_to(s, t, resolution, g, r),
        forall|around: Bbox, small: bool| #[trigger]
            vec_source::is_smaller(t, around, resolution, small) ==> small,
    ensures
        g is Point ==> r == Some(g),
        !(g is Point) ==> r is None,
{
}

/// A window of a cloud holds the points that lie in it, as often as the
/// cloud has them, and no other.
pub proof fn a_window_holds_its_points(points: Seq<Point3>, b: Bbox, p: Point3)
    ensures
        las_source::held(points, b).to_multiset().count(p) == (if geometry::inside(
            b,
            Coord { x: p.x, y: p.y },
        ) {
            points.to_multiset().count(p)
        } else {
            0
        }),
    decreases points.len(),
{
    broadcast use vstd::seq_lib::group_to_multiset_ensures;

    reveal(Seq::filter);
    if points.len() > 0 {
        let rest = points.drop_last();
        a_window_holds_its_points(rest, b, p);
        assert(points =~= rest.push(points.last()));
        let last = points.last();
        if geometry::inside(b, Coord { x: last.x, y: last.y }) {
            assert(las_source::held(points, b) =~= las_source::held(rest, b).push(last));
        } else {
            assert(las_source::held(points, b) =~= las_source::held(rest, b));
        }
    }
}

} // verus!
