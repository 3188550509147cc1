//! Kernels that make a band of a band: terrain, focal statistics and cell
//! algebra. A kernel works on floating-point numbers and is handed in; it
//! runs over the window that was pulled, halo and all, and what it makes is
//! cut to the window asked for.

use vstd::prelude::*;

use crate::caps::Constraint;
use crate::chunk;
use crate::chunk::{Band, BandModel, Placement, RasterChunk};
use crate::chunk_ops;
use crate::config::{ClassRange, UnaryOpConfig};
use crate::elements;
use crate::elements::{Aspect, Combine, Focal, Hillshade, Mosaic, Slope, TERRAIN_HALO_CELLS};
use crate::number::Real;
use crate::seams;
use crate::seams::{Kernel, Part};

verus! {

/// Where the window asked for lies on the raster that was pulled, in pixels,
/// and what it covers.
#[derive(Clone, Copy, Debug)]
pub struct Cut {
    pub col0: usize,
    pub row0: usize,
    pub cols: usize,
    pub rows: usize,
    pub place: Placement,
}

/// Why there is no band.
#[derive(Clone, Copy, Debug, PartialEq, Eq)]
pub enum BandFault<E> {
    /// The raster has no band to read.
    Empty,
    /// The kernel failed.
    Kernel(E),
}

/// What the kernel makes of a band of a raster, for an element.
pub open spec fn makes<P, E, K: Fn(&P, &RasterChunk, usize) -> Result<Band, E>>(
    k: K,
    p: P,
    input: RasterChunk,
    b: usize,
    r: Result<Band, E>,
) -> bool {
    k.ensures((&p, &input, b), r)
}

/// The kernel takes every band of a well-formed raster, and what it makes of
/// one fills the raster.
pub open spec fn is_kernel<P, E, K: Fn(&P, &RasterChunk, usize) -> Result<Band, E>>(
    k: K,
    p: P,
) -> bool {
    &&& forall|input: RasterChunk, b: usize|
        input.wf() && b < input.bands@.len() ==> #[trigger] k.requires((&p, &input, b))
    &&& forall|input: RasterChunk, b: usize, made: Band| #[trigger]
        makes(k, p, input, b, Ok(made)) ==> made.data@.len() == input.width * input.height
}

/// A raster is bands over the raster that was pulled, cut to a window.
pub open spec fn is_cut(made: Seq<BandModel>, input: RasterChunk, cut: Cut, r: RasterChunk) -> bool {
    &&& r.wf()
    &&& r.place == cut.place
    &&& r.width == chunk_ops::fitted(input.width, cut.col0, cut.cols)
    &&& r.height == chunk_ops::fitted(input.height, cut.row0, cut.rows)
    &&& chunk::bands_model(r.bands@) == Seq::new(
        made.len(),
        |i: int|
            chunk_ops::cropped_band(
                made[i],
                input.width as int,
                cut.col0 as int,
                cut.row0 as int,
                r.width as int,
                r.height as int,
            ),
    )
}

fn cut_out(made: Vec<Band>, input: &RasterChunk, cut: Cut) -> (r: RasterChunk)
    requires
        input.wf(),
        forall|i: int|
            0 <= i < made@.len() ==> (#[trigger] made@[i]).data@.len() == input.width
                * input.height,
    ensures
        is_cut(chunk::bands_model(made@), *input, cut, r),
{
    let full = RasterChunk {
        width: input.width,
        height: input.height,
        bands: made,
        place: input.place,
    };
    let r = full.crop_to(cut.col0, cut.row0, cut.cols, cut.rows, cut.place);
    proof {
        let want = Seq::new(
            made@.len(),
            |i: int|
                chunk_ops::cropped_band(
                    chunk::bands_model(made@)[i],
                    input.width as int,
                    cut.col0 as int,
                    cut.row0 as int,
                    r.width as int,
                    r.height as int,
                ),
        );
        assert(chunk::bands_model(r.bands@) =~= want);
    }
    r
}

/// What is made of the first band of a raster.
pub open spec fn made_of_first<P, E, K: Fn(&P, &RasterChunk, usize) -> Result<Band, E>>(
    k: K,
    p: P,
    input: RasterChunk,
    cut: Cut,
    r: Result<RasterChunk, BandFault<E>>,
) -> bool {
    match r {
        Ok(out) => input.bands@.len() > 0 && exists|made: Band| #[trigger]
            makes(k, p, input, 0, Ok(made)) && is_cut(seq![made@], input, cut, out),
        Err(BandFault::Empty) => input.bands@.len() == 0,
        Err(BandFault::Kernel(e)) => input.bands@.len() > 0 && makes(k, p, input, 0, Err(e)),
    }
}

fn first<P, E, K: Fn(&P, &RasterChunk, usize) -> Result<Band, E>>(
    k: &K,
    p: &P,
    input: &RasterChunk,
    cut: Cut,
) -> (r: Result<RasterChunk, BandFault<E>>)
    requires
        is_kernel(*k, *p),
        input.wf(),
    ensures
        made_of_first(*k, *p, *input, cut, r),
{
    if input.bands.len() == 0 {
        return Err(BandFault::Empty);
    }
    match k(p, input, 0) {
        Err(e) => {
            assert(makes(*k, *p, *input, 0, Err(e)));
            Err(BandFault::Kernel(e))
        },
        Ok(band) => {
            assert(makes(*k, *p, *input, 0, Ok(band)));
            let ghost made = band;
            let bands = vec![band];
            assert(chunk::bands_model(bands@) =~= seq![made@]);
            Ok(cut_out(bands, input, cut))
        },
    }
}

/// What the kernel makes of the first bands of a raster.
pub open spec fn all_made<P, E, K: Fn(&P, &RasterChunk, usize) -> Result<Band, E>>(
    k: K,
    p: P,
    input: RasterChunk,
    made: Seq<Band>,
) -> bool {
    made.len() <= input.bands@.len() && forall|i: int|
        0 <= i < made.len() ==> makes(k, p, input, i as usize, Ok(#[trigger] made[i]))
}

/// What is made of every band of a raster; the first that fails is the one
/// that is reported.
pub open spec fn made_of_each<P, E, K: Fn(&P, &RasterChunk, usize) -> Result<Band, E>>(
    k: K,
    p: P,
    input: RasterChunk,
    cut: Cut,
    r: Result<RasterChunk, E>,
) -> bool {
    match r {
        Ok(out) => exists|made: Seq<Band>| #[trigger]
            all_made(k, p, input, made) && made.len() == input.bands@.len() && is_cut(
                chunk::bands_model(made),
                input,
                cut,
                out,
            ),
        Err(e) => exists|made: Seq<Band>| #[trigger]
            all_made(k, p, input, made) && made.len() < input.bands@.len() && makes(
                k,
                p,
                input,
                made.len() as usize,
                Err(e),
            ),
    }
}

fn each<P, E, K: Fn(&P, &RasterChunk, usize) -> Result<Band, E>>(
    k: &K,
    p: &P,
    input: &RasterChunk,
    cut: Cut,
) -> (r: Result<RasterChunk, E>)
    requires
        is_kernel(*k, *p),
        input.wf(),
    ensures
        made_of_each(*k, *p, *input, cut, r),
{
    let mut bands: Vec<Band> = Vec::new();
    for i in 0..input.bands.len()
        invariant
            is_kernel(*k, *p),
            input.wf(),
            bands@.len() == i,
            all_made(*k, *p, *input, bands@),
    {
        match k(p, input, i) {
            Err(e) => {
                assert(makes(*k, *p, *input, i, Err(e)));
                assert(all_made(*k, *p, *input, bands@));
                return Err(e);
            },
            Ok(band) => {
                assert(makes(*k, *p, *input, i, Ok(band)));
                bands.push(band);
            },
        }
    }
    assert forall|i: int| 0 <= i < bands@.len() implies (#[trigger] bands@[i]).data@.len()
        == input.width * input.height by {
        assert(makes(*k, *p, *input, i as usize, Ok(bands@[i])));
    }
    let ghost made = bands@;
    assert(all_made(*k, *p, *input, made));
    Ok(cut_out(bands, input, cut))
}

impl Hillshade {
    /// The shade of the first band.
    pub fn compute<E, K: Fn(&Hillshade, &RasterChunk, usize) -> Result<Band, E>>(
        &self,
        k: &K,
        input: &RasterChunk,
        cut: Cut,
    ) -> (r: Result<RasterChunk, BandFault<E>>)
        requires
            is_kernel(*k, *self),
            input.wf(),
        ensures
            made_of_first(*k, *self, *input, cut, r),
    {
        first(k, self, input, cut)
    }
}

impl Slope {
    /// The slope of the first band.
    pub fn compute<E, K: Fn(&Slope, &RasterChunk, usize) -> Result<Band, E>>(
        &self,
        k: &K,
        input: &RasterChunk,
        cut: Cut,
    ) -> (r: Result<RasterChunk, BandFault<E>>)
        requires
            is_kernel(*k, *self),
            input.wf(),
        ensures
            made_of_first(*k, *self, *input, cut, r),
    {
        first(k, self, input, cut)
    }
}

impl Aspect {
    /// The aspect of the first band.
    pub fn compute<E, K: Fn(&Aspect, &RasterChunk, usize) -> Result<Band, E>>(
        &self,
        k: &K,
        input: &RasterChunk,
        cut: Cut,
    ) -> (r: Result<RasterChunk, BandFault<E>>)
        requires
            is_kernel(*k, *self),
            input.wf(),
        ensures
            made_of_first(*k, *self, *input, cut, r),
    {
        first(k, self, input, cut)
    }
}

impl Focal {
    /// The statistic around each pixel, band by band.
    pub fn compute<E, K: Fn(&Focal, &RasterChunk, usize) -> Result<Band, E>>(
        &self,
        k: &K,
        input: &RasterChunk,
        cut: Cut,
    ) -> (r: Result<RasterChunk, E>)
        requires
            is_kernel(*k, *self),
            input.wf(),
        ensures
            made_of_each(*k, *self, *input, cut, r),
    {
        each(k, self, input, cut)
    }
}

/// What is done to each cell.
#[derive(Debug)]
pub enum AlgebraOp {
    Unary(UnaryOpConfig),
    Reclassify(Vec<ClassRange>),
}

/// Algebra on each cell of each band.
#[derive(Debug)]
pub struct MapAlgebra {
    pub op: AlgebraOp,
}

impl MapAlgebra {
    pub fn new(op: AlgebraOp) -> (r: MapAlgebra)
        ensures
            r.op == op,
    {
        MapAlgebra { op }
    }

    /// Any raster passes.
    pub fn constraint(&self) -> (r: Constraint)
        ensures
            r@ == elements::any_raster_passes(),
    {
        Mosaic.constraint()
    }

    /// The operation on every cell, band by band.
    pub fn compute<E, K: Fn(&MapAlgebra, &RasterChunk, usize) -> Result<Band, E>>(
        &self,
        k: &K,
        input: &RasterChunk,
        cut: Cut,
    ) -> (r: Result<RasterChunk, E>)
        requires
            is_kernel(*k, *self),
            input.wf(),
        ensures
            made_of_each(*k, *self, *input, cut, r),
    {
        each(k, self, input, cut)
    }
}

/// What the kernel makes of two bands, for an operation.
pub open spec fn makes_of_two<E, K: Fn(&Combine, &Band, &Band) -> Result<Band, E>>(
    k: K,
    p: Combine,
    a: Band,
    b: Band,
    r: Result<Band, E>,
) -> bool {
    k.ensures((&p, &a, &b), r)
}

/// What the kernel makes of the first bands of two rasters, pair by pair.
pub open spec fn pairs_made<E, K: Fn(&Combine, &Band, &Band) -> Result<Band, E>>(
    k: K,
    p: Combine,
    left: Seq<Band>,
    right: Seq<Band>,
    made: Seq<Band>,
) -> bool {
    made.len() <= left.len() && forall|i: int|
        0 <= i < made.len() ==> makes_of_two(k, p, left[i], right[i], Ok(#[trigger] made[i]))
}

impl Combine {
    /// The operation on two rasters that lie on one grid, band by band of
    /// the first; the first pair that fails is the one that is reported.
    pub fn compute<E, K: Fn(&Combine, &Band, &Band) -> Result<Band, E>>(
        &self,
        k: &K,
        left: &Vec<Band>,
        right: &Vec<Band>,
    ) -> (r: Result<Vec<Band>, E>)
        requires
            left@.len() <= right@.len(),
            forall|a: Band, b: Band| #[trigger] k.requires((self, &a, &b)),
        ensures
            match r {
                Ok(made) => made@.len() == left@.len() && pairs_made(
                    *k,
                    *self,
                    left@,
                    right@,
                    made@,
                ),
                Err(e) => exists|made: Seq<Band>| #[trigger]
                    pairs_made(*k, *self, left@, right@, made) && made.len() < left@.len()
                        && makes_of_two(
                        *k,
                        *self,
                        left@[made.len() as int],
                        right@[made.len() as int],
                        Err(e),
                    ),
            },
    {
        let mut bands: Vec<Band> = Vec::new();
        for i in 0..left.len()
            invariant
                left@.len() <= right@.len(),
                forall|a: Band, b: Band| #[trigger] k.requires((self, &a, &b)),
                bands@.len() == i,
                pairs_made(*k, *self, left@, right@, bands@),
        {
            match k(self, &left[i], &right[i]) {
                Err(e) => {
                    assert(makes_of_two(*k, *self, left@[i as int], right@[i as int], Err(e)));
                    assert(pairs_made(*k, *self, left@, right@, bands@));
                    return Err(e);
                },
                Ok(band) => {
                    assert(makes_of_two(*k, *self, left@[i as int], right@[i as int], Ok(band)));
                    bands.push(band);
                },
            }
        }
        Ok(bands)
    }
}

// Seams.

/// A kernel works cell by cell as a mathematical one does.
pub open spec fn acts_as<P, E, K: Fn(&P, &RasterChunk, usize) -> Result<Band, E>>(
    k: K,
    p: P,
    f: Kernel<Real, Real>,
) -> bool {
    forall|input: RasterChunk, b: usize, made: Band| #[trigger]
        makes(k, p, input, b, Ok(made)) ==> made.data@ == seams::applied(
            f,
            input.bands@[b as int].data@,
            input.width as int,
            input.height as int,
        )
}

/// A raster is a part of another, widened by a halo.
pub open spec fn is_widened(tile: RasterChunk, whole: RasterChunk, window: Part, halo: int) -> bool {
    let wide = window.widened(whole.width as int, whole.height as int, halo);
    &&& tile.width == wide.cols
    &&& tile.height == wide.rows
    &&& tile.bands@.len() == whole.bands@.len()
    &&& forall|b: int|
        0 <= b < tile.bands@.len() ==> (#[trigger] tile.bands@[b]).data@ == wide.of(
            whole.bands@[b].data@,
            whole.width as int,
        )
}

/// A cut is a window of a raster.
pub open spec fn cuts(cut: Cut, window: Part) -> bool {
    &&& cut.col0 == window.col0
    &&& cut.row0 == window.row0
    &&& cut.cols == window.cols
    &&& cut.rows == window.rows
}

/// The window within its widened part.
pub open spec fn inside(window: Part, whole: RasterChunk, halo: int) -> Part {
    let wide = window.widened(whole.width as int, whole.height as int, halo);
    Part { col0: window.col0 - wide.col0, row0: window.row0 - wide.row0, ..window }
}

proof fn bands_match<P, E, K: Fn(&P, &RasterChunk, usize) -> Result<Band, E>>(
    k: K,
    p: P,
    f: Kernel<Real, Real>,
    whole: RasterChunk,
    tile: RasterChunk,
    window: Part,
    halo: int,
    b: usize,
    of_whole: Band,
    of_tile: Band,
)
    requires
        0 <= halo,
        acts_as(k, p, f),
        seams::reads_within(f, halo),
        window.lies_on(whole.width as int, whole.height as int),
        is_widened(tile, whole, window, halo),
        b < whole.bands@.len(),
        makes(k, p, whole, b, Ok(of_whole)),
        makes(k, p, tile, b, Ok(of_tile)),
    ensures
        inside(window, whole, halo).of(of_tile.data@, tile.width as int) == window.of(
            of_whole.data@,
            whole.width as int,
        ),
{
    assert(tile.bands@[b as int].data@ == window.widened(
        whole.width as int,
        whole.height as int,
        halo,
    ).of(whole.bands@[b as int].data@, whole.width as int));
    seams::a_widened_window_is_seam_free(
        f,
        whole.bands@[b as int].data@,
        whole.width as int,
        whole.height as int,
        window,
        halo,
    );
}

/// Terrain shows no seams: a tile pulled with the terrain halo and cut back
/// has the pixels that the whole raster has there. So for a shade, a slope
/// or an aspect whose kernel reads no further than the halo.
pub proof fn terrain_shows_no_seam<P, E, K: Fn(&P, &RasterChunk, usize) -> Result<Band, E>>(
    k: K,
    p: P,
    f: Kernel<Real, Real>,
    whole: RasterChunk,
    tile: RasterChunk,
    window: Part,
    cut_whole: Cut,
    cut_tile: Cut,
    of_whole: RasterChunk,
    of_tile: RasterChunk,
)
    requires
        acts_as(k, p, f),
        seams::reads_within(f, TERRAIN_HALO_CELLS as int),
        window.lies_on(whole.width as int, whole.height as int),
        is_widened(tile, whole, window, TERRAIN_HALO_CELLS as int),
        cuts(cut_whole, window),
        cuts(cut_tile, inside(window, whole, TERRAIN_HALO_CELLS as int)),
        made_of_first(k, p, whole, cut_whole, Ok(of_whole)),
        made_of_first(k, p, tile, cut_tile, Ok(of_tile)),
    ensures
        of_tile.width == of_whole.width,
        of_tile.height == of_whole.height,
        of_tile.bands@.len() == 1,
        of_whole.bands@.len() == 1,
        of_tile.bands@[0].data@ == of_whole.bands@[0].data@,
{
    let halo = TERRAIN_HALO_CELLS as int;
    let a = choose|made: Band| #[trigger]
        makes(k, p, whole, 0, Ok(made)) && is_cut(seq![made@], whole, cut_whole, of_whole);
    let b = choose|made: Band| #[trigger]
        makes(k, p, tile, 0, Ok(made)) && is_cut(seq![made@], tile, cut_tile, of_tile);
    bands_match(k, p, f, whole, tile, window, halo, 0, a, b);
    assert(chunk::bands_model(of_whole.bands@)[0].data == window.of(
        a.data@,
        whole.width as int,
    ));
    assert(chunk::bands_model(of_tile.bands@)[0].data == inside(window, whole, halo).of(
        b.data@,
        tile.width as int,
    ));
    assert(chunk::bands_model(of_tile.bands@).len() == 1);
    assert(chunk::bands_model(of_whole.bands@).len() == 1);
}

/// Focal statistics show no seams: a tile pulled with the radius as its halo
/// and cut back has the pixels that the whole raster has there, in every
/// band, for a kernel that reads no further than the radius.
pub proof fn focal_shows_no_seam<E, K: Fn(&Focal, &RasterChunk, usize) -> Result<Band, E>>(
    k: K,
    p: Focal,
    f: Kernel<Real, Real>,
    whole: RasterChunk,
    tile: RasterChunk,
    window: Part,
    cut_whole: Cut,
    cut_tile: Cut,
    of_whole: RasterChunk,
    of_tile: RasterChunk,
)
    requires
        acts_as(k, p, f),
        seams::reads_within(f, p.radius as int),
        window.lies_on(whole.width as int, whole.height as int),
        is_widened(tile, whole, window, p.radius as int),
        cuts(cut_whole, window),
        cuts(cut_tile, inside(window, whole, p.radius as int)),
        made_of_each(k, p, whole, cut_whole, Ok(of_whole)),
        made_of_each(k, p, tile, cut_tile, Ok(of_tile)),
    ensures
        of_tile.width == of_whole.width,
        of_tile.height == of_whole.height,
        of_tile.bands@.len() == whole.bands@.len(),
        of_whole.bands@.len() == whole.bands@.len(),
        forall|i: int|
            0 <= i < whole.bands@.len() ==> (#[trigger] of_tile.bands@[i]).data@
                == of_whole.bands@[i].data@,
{
    let halo = p.radius as int;
    let a = choose|made: Seq<Band>| #[trigger]
        all_made(k, p, whole, made) && made.len() == whole.bands@.len() && is_cut(
            chunk::bands_model(made),
            whole,
            cut_whole,
            of_whole,
        );
    let b = choose|made: Seq<Band>| #[trigger]
        all_made(k, p, tile, made) && made.len() == tile.bands@.len() && is_cut(
            chunk::bands_model(made),
            tile,
            cut_tile,
            of_tile,
        );
    assert(chunk::bands_model(of_whole.bands@).len() == whole.bands@.len());
    assert(chunk::bands_model(of_tile.bands@).len() == whole.bands@.len());
    assert forall|i: int| 0 <= i < whole.bands@.len() implies (
    #[trigger] of_tile.bands@[i]).data@ == of_whole.bands@[i].data@ by {
        assert(makes(k, p, whole, i as usize, Ok(a[i])));
        assert(makes(k, p, tile, i as usize, Ok(b[i])));
        bands_match(k, p, f, whole, tile, window, halo, i as usize, a[i], b[i]);
        assert(chunk::bands_model(of_whole.bands@)[i].data == window.of(
            a[i].data@,
            whole.width as int,
        ));
        assert(chunk::bands_model(of_tile.bands@)[i].data == inside(window, whole, halo).of(
            b[i].data@,
            tile.width as int,
        ));
    }
}

} // verus!
