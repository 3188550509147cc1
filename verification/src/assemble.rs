//! Putting chunks of one level together into one window.
//!
//! Where the rows and columns of a chunk fall in the window comes from
//! outside; what is laid where, and in which order, is decided here. A
//! later chunk paints over an earlier one.

use vstd::prelude::*;

use crate::caps::{Caps, RasterCaps, TensorCaps};
use crate::chunk;
use crate::chunk::{
    Band, BandModel, Chunk, Coord, FeatureModel, Placement, Point3, PointChunk, RasterChunk,
    TensorChunk, VectorChunk, VectorFeature,
};
use crate::chunk_ops;
use crate::cutting;
use crate::error::{ChunkKind, Error};
use crate::fragments;
use crate::geometry;
use crate::number::Real;
use crate::vector;
use crate::window::Bbox;

verus! {

/// Where the rows and columns of a chunk fall in a window, `None` outside.
#[derive(Debug)]
pub struct ChunkMap {
    pub rows: Vec<Option<usize>>,
    pub cols: Vec<Option<usize>>,
}

/// The place of a cell in a window of so many columns and rows, where it
/// has one.
pub open spec fn cell_place(
    row: Option<usize>,
    col: Option<usize>,
    cols: int,
    rows: int,
) -> Option<int> {
    match (row, col) {
        (Some(r), Some(c)) => if r < rows && c < cols {
            Some(r * cols + c)
        } else {
            None
        },
        _ => None,
    }
}

/// The first `n` cells of a chunk, row by row, laid onto a window.
pub open spec fn painted<T>(
    base: Seq<T>,
    data: Seq<T>,
    width: int,
    map: ChunkMap,
    cols: int,
    rows: int,
    n: int,
) -> Seq<T>
    decreases n,
{
    if n <= 0 {
        base
    } else {
        let before = painted(base, data, width, map, cols, rows, n - 1);
        match cell_place(
            map.rows@[(n - 1) / width],
            map.cols@[(n - 1) % width],
            cols,
            rows,
        ) {
            Some(at) => before.update(at, data[n - 1]),
            None => before,
        }
    }
}

/// The cell falls on a place of the window.
pub open spec fn falls_on(
    width: int,
    map: ChunkMap,
    cols: int,
    rows: int,
    cell: int,
    at: int,
) -> bool {
    cell_place(map.rows@[cell / width], map.cols@[cell % width], cols, rows) == Some(at)
}

proof fn cell_fits(row: usize, col: usize, cols: int, rows: int)
    requires
        row < rows,
        col < cols,
    ensures
        0 <= row * cols + col < cols * rows,
{
    assert(0 <= row * cols + col < cols * rows) by (nonlinear_arith)
        requires
            row < rows,
            0 <= col < cols,
            0 <= row,
    ;
}

proof fn places_fit(row: Option<usize>, col: Option<usize>, cols: int, rows: int)
    ensures
        cell_place(row, col, cols, rows) matches Some(at) ==> 0 <= at < cols * rows,
{
    if let (Some(r), Some(c)) = (row, col) {
        if r < rows && c < cols {
            cell_fits(r, c, cols, rows);
        }
    }
}

pub(crate) proof fn painting_keeps_length<T>(
    base: Seq<T>,
    data: Seq<T>,
    width: int,
    map: ChunkMap,
    cols: int,
    rows: int,
    n: int,
)
    requires
        base.len() == cols * rows,
    ensures
        painted(base, data, width, map, cols, rows, n).len() == base.len(),
    decreases n,
{
    if n > 0 {
        painting_keeps_length(base, data, width, map, cols, rows, n - 1);
        places_fit(map.rows@[(n - 1) / width], map.cols@[(n - 1) % width], cols, rows);
    }
}

/// A place of the window that one cell of a chunk falls on, and no other,
/// holds that cell; a place that none falls on stays as it was.
pub proof fn a_cell_lands_where_it_falls<T>(
    base: Seq<T>,
    data: Seq<T>,
    width: int,
    map: ChunkMap,
    cols: int,
    rows: int,
    n: int,
    at: int,
    cell: int,
)
    requires
        base.len() == cols * rows,
        0 <= at < base.len(),
        forall|k: int|
            0 <= k < n && k != cell ==> !#[trigger] falls_on(width, map, cols, rows, k, at),
    ensures
        0 <= cell < n && falls_on(width, map, cols, rows, cell, at) ==> painted(
            base,
            data,
            width,
            map,
            cols,
            rows,
            n,
        )[at] == data[cell],
        !(0 <= cell < n && falls_on(width, map, cols, rows, cell, at)) ==> painted(
            base,
            data,
            width,
            map,
            cols,
            rows,
            n,
        )[at] == base[at],
    decreases n,
{
    if n > 0 {
        a_cell_lands_where_it_falls(base, data, width, map, cols, rows, n - 1, at, cell);
        painting_keeps_length(base, data, width, map, cols, rows, n - 1);
        let last = n - 1;
        places_fit(map.rows@[last / width], map.cols@[last % width], cols, rows);
        if last != cell {
            assert(!falls_on(width, map, cols, rows, last, at));
        }
        if let Some(place) = cell_place(
            map.rows@[last / width],
            map.cols@[last % width],
            cols,
            rows,
        ) {
            if place == at {
                assert(falls_on(width, map, cols, rows, last, at));
            }
        }
    }
}

fn paint<T: Copy>(
    out: &mut Vec<T>,
    data: &Vec<T>,
    base: usize,
    width: usize,
    height: usize,
    map: &ChunkMap,
    cols: usize,
    rows: usize,
)
    requires
        old(out)@.len() == cols * rows,
        base + width * height <= data@.len(),
        map.rows@.len() == height,
        map.cols@.len() == width,
    ensures
        final(out)@.len() == old(out)@.len(),
        final(out)@ == painted(
            old(out)@,
            data@.subrange(base as int, base + width * height),
            width as int,
            *map,
            cols as int,
            rows as int,
            width * height,
        ),
{
    let ghost start = out@;
    let ghost plane = data@.subrange(base as int, base + width * height);
    let len: usize = data.len();
    let total: usize = out.len();
    let mut cell: usize = 0;
    assert(0 * width == 0);
    for r in 0..height
        invariant
            len == data@.len(),
            base + width * height <= len,
            map.rows@.len() == height,
            map.cols@.len() == width,
            plane == data@.subrange(base as int, base + width * height),
            cell == r * width,
            start.len() == cols * rows,
            start.len() == total,
            out@.len() == start.len(),
            out@ == painted(start, plane, width as int, *map, cols as int, rows as int, cell as int),
    {
        assert((r + 1) * width == r * width + width && (r + 1) * width <= width * height) by (
        nonlinear_arith)
            requires
                r + 1 <= height,
        ;
        for c in 0..width
            invariant
                len == data@.len(),
                base + width * height <= len,
                r < height,
                r * width + width <= width * height,
                map.rows@.len() == height,
                map.cols@.len() == width,
                plane == data@.subrange(base as int, base + width * height),
                cell == r * width + c,
                start.len() == cols * rows,
                start.len() == total,
                out@.len() == start.len(),
                out@ == painted(
                    start,
                    plane,
                    width as int,
                    *map,
                    cols as int,
                    rows as int,
                    cell as int,
                ),
        {
            proof {
                vstd::arithmetic::div_mod::lemma_fundamental_div_mod_converse(
                    cell as int,
                    width as int,
                    r as int,
                    c as int,
                );
            }
            if let (Some(row), Some(col)) = (map.rows[r], map.cols[c]) {
                if row < rows && col < cols {
                    proof {
                        cell_fits(row, col, cols as int, rows as int);
                        assert(row * cols + col < total);
                        assert(0 <= row * cols) by (nonlinear_arith);
                    }
                    out.set(row * cols + col, data[base + cell]);
                }
            }
            cell = cell + 1;
        }
    }
    assert(height * width == width * height) by (nonlinear_arith);
}

fn filled<T: Copy>(v: T, n: usize) -> (r: Vec<T>)
    ensures
        r@ == Seq::new(n as nat, |i: int| v),
{
    let mut r: Vec<T> = Vec::new();
    for i in 0..n
        invariant
            r@ == Seq::new(i as nat, |k: int| v),
    {
        r.push(v);
        assert(r@ =~= Seq::new((i + 1) as nat, |k: int| v));
    }
    r
}

/// One band of the first `k` chunks laid onto a window.
pub open spec fn painted_band(
    base: Seq<Real>,
    chunks: Seq<&RasterChunk>,
    maps: Seq<ChunkMap>,
    band: int,
    cols: int,
    rows: int,
    k: int,
) -> Seq<Real>
    decreases k,
{
    if k <= 0 {
        base
    } else {
        let before = painted_band(base, chunks, maps, band, cols, rows, k - 1);
        let c = chunks[k - 1];
        if band < c.bands@.len() {
            painted(
                before,
                c.bands@[band].data@,
                c.width as int,
                maps[k - 1],
                cols,
                rows,
                c.width * c.height,
            )
        } else {
            before
        }
    }
}

/// The chunks and their maps agree.
pub open spec fn mapped(
    chunks: Seq<&RasterChunk>,
    maps: Seq<ChunkMap>,
) -> bool {
    &&& chunks.len() == maps.len()
    &&& forall|i: int|
        0 <= i < chunks.len() ==> (#[trigger] chunks[i]).wf() && maps[i].rows@.len()
            == chunks[i].height && maps[i].cols@.len() == chunks[i].width
}

/// How many bands come out: as many as the first chunk has.
pub open spec fn bands_out(chunks: Seq<&RasterChunk>, caps: RasterCaps) -> int {
    if chunks.len() == 0 {
        caps.bands as int
    } else {
        chunks[0].bands@.len() as int
    }
}

/// What stands where no chunk falls: what the first chunk's first band
/// says, else no number.
pub open spec fn blank(chunks: Seq<&RasterChunk>) -> Real {
    if chunks.len() == 0 || chunks[0].bands@.len() == 0 {
        Real { bits: crate::number::NAN_BITS }
    } else {
        chunks[0].bands@[0].nodata
    }
}

/// The raster that chunks make up.
pub open spec fn assembled_band(
    chunks: Seq<&RasterChunk>,
    maps: Seq<ChunkMap>,
    band: int,
    cols: int,
    rows: int,
) -> BandModel {
    BandModel {
        nodata: blank(chunks),
        data: painted_band(
            Seq::new((cols * rows) as nat, |i: int| blank(chunks)),
            chunks,
            maps,
            band,
            cols,
            rows,
            chunks.len() as int,
        ),
    }
}

/// Put raster chunks together into one window.
pub fn assemble_raster(
    chunks: &Vec<&RasterChunk>,
    maps: &Vec<ChunkMap>,
    cols: usize,
    rows: usize,
    caps: &RasterCaps,
    place: Placement,
) -> (r: RasterChunk)
    requires
        mapped(chunks@, maps@),
        cols * rows <= usize::MAX,
        forall|i: int|
            0 <= i < chunks@.len() ==> (#[trigger] chunks@[i]).bands@.len() <= bands_out(
                chunks@,
                *caps,
            ),
    ensures
        r.wf(),
        r.width == cols,
        r.height == rows,
        r.place == place,
        chunk::bands_model(r.bands@) == Seq::new(
            bands_out(chunks@, *caps) as nat,
            |b: int| assembled_band(chunks@, maps@, b, cols as int, rows as int),
        ),
{
    let n: usize = if chunks.len() == 0 {
        caps.bands as usize
    } else {
        chunks[0].bands.len()
    };
    let nodata: Real = if chunks.len() == 0 || chunks[0].bands.len() == 0 {
        Real::not_a_number()
    } else {
        chunks[0].bands[0].nodata
    };
    let size: usize = cols * rows;
    let mut bands: Vec<Band> = Vec::new();
    for b in 0..n
        invariant
            mapped(chunks@, maps@),
            size == cols * rows,
            nodata == blank(chunks@),
            bands@.len() == b,
            forall|k: int|
                0 <= k < b ==> (#[trigger] bands@[k])@ == assembled_band(
                    chunks@,
                    maps@,
                    k,
                    cols as int,
                    rows as int,
                ) && bands@[k].data@.len() == size,
    {
        let mut data = filled(nodata, size);
        let ghost base = data@;
        assert(base =~= Seq::new((cols * rows) as nat, |i: int| blank(chunks@)));
        for k in 0..chunks.len()
            invariant
                mapped(chunks@, maps@),
                size == cols * rows,
                data@.len() == size,
                data@ == painted_band(
                    base,
                    chunks@,
                    maps@,
                    b as int,
                    cols as int,
                    rows as int,
                    k as int,
                ),
        {
            let c = chunks[k];
            assert(chunks@[k as int].wf());
            if b < c.bands.len() {
                let source = &c.bands[b].data;
                assert(source@.len() == c.width * c.height);
                paint(&mut data, source, 0, c.width, c.height, &maps[k], cols, rows);
                assert(source@.subrange(0, c.width * c.height) =~= source@);
            }
        }
        bands.push(Band { nodata, data });
    }
    assert(chunk::bands_model(bands@) =~= Seq::new(
        bands_out(chunks@, *caps) as nat,
        |b: int| assembled_band(chunks@, maps@, b, cols as int, rows as int),
    ));
    RasterChunk { width: cols, height: rows, bands, place }
}

/// The chunks and their maps agree.
pub open spec fn tensors_mapped(chunks: Seq<&TensorChunk>, maps: Seq<ChunkMap>) -> bool {
    &&& chunks.len() == maps.len()
    &&& forall|i: int|
        0 <= i < chunks.len() ==> (#[trigger] chunks[i]).wf() && maps[i].rows@.len()
            == chunks[i].height && maps[i].cols@.len() == chunks[i].width
}

pub open spec fn channels_out(chunks: Seq<&TensorChunk>, caps: TensorCaps) -> u16 {
    if chunks.len() == 0 {
        caps.channels
    } else {
        chunks[0].channels
    }
}

/// One channel of the first `k` chunks laid onto a window.
pub open spec fn painted_channel(
    base: Seq<u32>,
    chunks: Seq<&TensorChunk>,
    maps: Seq<ChunkMap>,
    channel: int,
    cols: int,
    rows: int,
    k: int,
) -> Seq<u32>
    decreases k,
{
    if k <= 0 {
        base
    } else {
        let c = chunks[k - 1];
        painted(
            painted_channel(base, chunks, maps, channel, cols, rows, k - 1),
            chunk_ops::plane_of(c.data@, channel, c.width * c.height),
            c.width as int,
            maps[k - 1],
            cols,
            rows,
            c.width * c.height,
        )
    }
}

/// The bit pattern of a single-precision number that stands for no data.
pub const NAN_WORD: u32 = 0x7fc0_0000;

/// The first `n` channels of the tensor that chunks make up.
pub open spec fn assembled_channels(
    chunks: Seq<&TensorChunk>,
    maps: Seq<ChunkMap>,
    cols: int,
    rows: int,
    n: int,
) -> Seq<u32>
    decreases n,
{
    if n <= 0 {
        Seq::empty()
    } else {
        assembled_channels(chunks, maps, cols, rows, n - 1) + painted_channel(
            Seq::new((cols * rows) as nat, |i: int| NAN_WORD),
            chunks,
            maps,
            n - 1,
            cols,
            rows,
            chunks.len() as int,
        )
    }
}

/// Put tensor chunks together into one window.
pub fn assemble_tensor(
    chunks: &Vec<&TensorChunk>,
    maps: &Vec<ChunkMap>,
    cols: usize,
    rows: usize,
    caps: &TensorCaps,
    place: Placement,
) -> (r: TensorChunk)
    requires
        tensors_mapped(chunks@, maps@),
        cols * rows <= usize::MAX,
        forall|i: int|
            0 <= i < chunks@.len() ==> (#[trigger] chunks@[i]).channels >= channels_out(
                chunks@,
                *caps,
            ),
    ensures
        r.wf(),
        r.channels == channels_out(chunks@, *caps),
        r.width == cols,
        r.height == rows,
        r.place == place,
        r.data@ == assembled_channels(
            chunks@,
            maps@,
            cols as int,
            rows as int,
            r.channels as int,
        ),
{
    let channels: u16 = if chunks.len() == 0 {
        caps.channels
    } else {
        chunks[0].channels
    };
    let size: usize = cols * rows;
    let n: usize = channels as usize;
    let mut data: Vec<u32> = Vec::new();
    assert(0 * size == 0);
    for b in 0..n
        invariant
            tensors_mapped(chunks@, maps@),
            size == cols * rows,
            n == channels,
            forall|i: int| 0 <= i < chunks@.len() ==> (#[trigger] chunks@[i]).channels >= channels,
            data@.len() == b * size,
            data@ == assembled_channels(chunks@, maps@, cols as int, rows as int, b as int),
    {
        let mut plane = filled(NAN_WORD, size);
        let ghost base = plane@;
        assert(base =~= Seq::new((cols * rows) as nat, |i: int| NAN_WORD));
        for k in 0..chunks.len()
            invariant
                tensors_mapped(chunks@, maps@),
                size == cols * rows,
                b < n,
                n == channels,
                forall|i: int|
                    0 <= i < chunks@.len() ==> (#[trigger] chunks@[i]).channels >= channels,
                plane@.len() == size,
                plane@ == painted_channel(
                    base,
                    chunks@,
                    maps@,
                    b as int,
                    cols as int,
                    rows as int,
                    k as int,
                ),
        {
            let c = chunks[k];
            assert(chunks@[k as int].wf());
            let source = c.channel(b);
            let ghost whole = c.width * c.height;
            assert(whole >= 0) by (nonlinear_arith)
                requires
                    whole == c.width * c.height,
            ;
            assert(b * whole + whole <= c.channels * whole) by (nonlinear_arith)
                requires
                    b + 1 <= c.channels,
                    whole >= 0,
            ;
            assert(b * whole >= 0) by (nonlinear_arith)
                requires
                    whole >= 0,
            ;
            paint(&mut plane, &source, 0, c.width, c.height, &maps[k], cols, rows);
            assert(source@.subrange(0, whole) =~= source@);
        }
        data.append(&mut plane);
        assert((b + 1) * size == b * size + size) by (nonlinear_arith);
    }
    TensorChunk { channels, width: cols, height: rows, data, place }
}

/// The points of chunks that a window holds, chunk by chunk.
pub open spec fn points_within(chunks: Seq<&PointChunk>, window: Bbox, k: int) -> Seq<Point3>
    decreases k,
{
    if k <= 0 {
        Seq::empty()
    } else {
        points_within(chunks, window, k - 1) + chunks[k - 1].points@.filter(
            |p: Point3| geometry::inside(window, Coord { x: p.x, y: p.y }),
        )
    }
}

/// Put point chunks together into one window.
pub fn assemble_points(chunks: &Vec<&PointChunk>, place: Placement) -> (r: PointChunk)
    ensures
        r.place == place,
        r.points@ == points_within(chunks@, place.bbox, chunks@.len() as int),
{
    let mut points: Vec<Point3> = Vec::new();
    for k in 0..chunks.len()
        invariant
            points@ == points_within(chunks@, place.bbox, k as int),
    {
        let c: &PointChunk = chunks[k];
        let mut kept = c.crop_to(&place.bbox);
        points.append(&mut kept.points);
    }
    PointChunk { points, place }
}

/// Every chunk is a raster.
pub fn rasters<'a>(chunks: &Vec<&'a Chunk>) -> (r: Result<Vec<&'a RasterChunk>, Error>)
    ensures
        match r {
            Ok(v) => v@.len() == chunks@.len() && forall|i: int|
                0 <= i < v@.len() ==> *(#[trigger] chunks@[i]) == Chunk::Raster(*v@[i]),
            Err(e) => e == Error::Kind(ChunkKind::Raster) && exists|i: int|
                0 <= i < chunks@.len() && !(*(#[trigger] chunks@[i]) is Raster),
        },
{
    let mut v: Vec<&'a RasterChunk> = Vec::new();
    for i in 0..chunks.len()
        invariant
            v@.len() == i,
            forall|k: int| 0 <= k < i ==> *(#[trigger] chunks@[k]) == Chunk::Raster(*v@[k]),
    {
        match chunks[i].raster() {
            Ok(c) => {
                v.push(c);
            },
            Err(e) => {
                assert(!(*chunks@[i as int] is Raster));
                return Err(e);
            },
        }
    }
    Ok(v)
}

/// Every chunk is a tensor.
pub fn tensors<'a>(chunks: &Vec<&'a Chunk>) -> (r: Result<Vec<&'a TensorChunk>, Error>)
    ensures
        match r {
            Ok(v) => v@.len() == chunks@.len() && forall|i: int|
                0 <= i < v@.len() ==> *(#[trigger] chunks@[i]) == Chunk::Tensor(*v@[i]),
            Err(e) => e == Error::Kind(ChunkKind::Tensor) && exists|i: int|
                0 <= i < chunks@.len() && !(*(#[trigger] chunks@[i]) is Tensor),
        },
{
    let mut v: Vec<&'a TensorChunk> = Vec::new();
    for i in 0..chunks.len()
        invariant
            v@.len() == i,
            forall|k: int| 0 <= k < i ==> *(#[trigger] chunks@[k]) == Chunk::Tensor(*v@[k]),
    {
        match chunks[i].tensor() {
            Ok(c) => {
                v.push(c);
            },
            Err(e) => {
                assert(!(*chunks@[i as int] is Tensor));
                return Err(e);
            },
        }
    }
    Ok(v)
}

/// Every chunk is a point cloud.
pub fn point_clouds<'a>(chunks: &Vec<&'a Chunk>) -> (r: Result<Vec<&'a PointChunk>, Error>)
    ensures
        match r {
            Ok(v) => v@.len() == chunks@.len() && forall|i: int|
                0 <= i < v@.len() ==> *(#[trigger] chunks@[i]) == Chunk::PointCloud(*v@[i]),
            Err(e) => e == Error::Kind(ChunkKind::PointCloud) && exists|i: int|
                0 <= i < chunks@.len() && !(*(#[trigger] chunks@[i]) is PointCloud),
        },
{
    let mut v: Vec<&'a PointChunk> = Vec::new();
    for i in 0..chunks.len()
        invariant
            v@.len() == i,
            forall|k: int| 0 <= k < i ==> *(#[trigger] chunks@[k]) == Chunk::PointCloud(*v@[k]),
    {
        match chunks[i].points() {
            Ok(c) => {
                v.push(c);
            },
            Err(e) => {
                assert(!(*chunks@[i as int] is PointCloud));
                return Err(e);
            },
        }
    }
    Ok(v)
}

/// Every chunk holds features.
pub fn vectors<'a>(chunks: &Vec<&'a Chunk>) -> (r: Result<Vec<&'a VectorChunk>, Error>)
    ensures
        match r {
            Ok(v) => v@.len() == chunks@.len() && forall|i: int|
                0 <= i < v@.len() ==> *(#[trigger] chunks@[i]) == Chunk::Vector(*v@[i]),
            Err(e) => e == Error::Kind(ChunkKind::Vector) && exists|i: int|
                0 <= i < chunks@.len() && !(*(#[trigger] chunks@[i]) is Vector),
        },
{
    let mut v: Vec<&'a VectorChunk> = Vec::new();
    for i in 0..chunks.len()
        invariant
            v@.len() == i,
            forall|k: int| 0 <= k < i ==> *(#[trigger] chunks@[k]) == Chunk::Vector(*v@[k]),
    {
        match chunks[i].vector() {
            Ok(c) => {
                v.push(c);
            },
            Err(e) => {
                assert(!(*chunks@[i as int] is Vector));
                return Err(e);
            },
        }
    }
    Ok(v)
}

// Any kind.

/// Chunks of a link, as the rasters that they are.
pub open spec fn raster_parts<'a>(chunks: Seq<&'a Chunk>) -> Seq<&'a RasterChunk> {
    Seq::new(chunks.len(), |i: int| &chunks[i]->Raster_0)
}

/// Chunks of a link, as the tensors that they are.
pub open spec fn tensor_parts<'a>(chunks: Seq<&'a Chunk>) -> Seq<&'a TensorChunk> {
    Seq::new(chunks.len(), |i: int| &chunks[i]->Tensor_0)
}

/// Chunks of a link, as the point clouds that they are.
pub open spec fn point_parts<'a>(chunks: Seq<&'a Chunk>) -> Seq<&'a PointChunk> {
    Seq::new(chunks.len(), |i: int| &chunks[i]->PointCloud_0)
}

/// Chunks of a link, as the features that they hold.
pub open spec fn vector_parts<'a>(chunks: Seq<&'a Chunk>) -> Seq<&'a VectorChunk> {
    Seq::new(chunks.len(), |i: int| &chunks[i]->Vector_0)
}

/// Every chunk is of the kind that was negotiated.
pub open spec fn all_of_kind(chunks: Seq<&Chunk>, caps: Caps) -> bool {
    forall|i: int|
        0 <= i < chunks.len() ==> match caps {
            Caps::Raster(_) => *(#[trigger] chunks[i]) is Raster,
            Caps::PointCloud(_) => *chunks[i] is PointCloud,
            Caps::Vector(_) => *chunks[i] is Vector,
            Caps::Tensor(_) => *chunks[i] is Tensor,
        }
}

/// The kind that was negotiated.
pub open spec fn kind_of(caps: Caps) -> ChunkKind {
    match caps {
        Caps::Raster(_) => ChunkKind::Raster,
        Caps::PointCloud(_) => ChunkKind::PointCloud,
        Caps::Vector(_) => ChunkKind::Vector,
        Caps::Tensor(_) => ChunkKind::Tensor,
    }
}

/// What is handed in says of any chunk, by its place and its sides, where
/// its rows and columns fall.
pub open spec fn is_mapping<P: Fn(usize, usize, usize) -> ChunkMap>(p: P) -> bool {
    &&& forall|k: usize, w: usize, h: usize| #[trigger] p.requires((k, w, h))
    &&& forall|k: usize, w: usize, h: usize, m: ChunkMap| #[trigger]
        p.ensures((k, w, h), m) ==> m.rows@.len() == h && m.cols@.len() == w
}

/// The maps of chunks with these sides.
pub open spec fn maps_of<P: Fn(usize, usize, usize) -> ChunkMap>(
    p: P,
    sides: Seq<(usize, usize)>,
    maps: Seq<ChunkMap>,
) -> bool {
    &&& maps.len() == sides.len()
    &&& forall|i: int|
        0 <= i < maps.len() ==> p.ensures(
            (i as usize, sides[i].0, sides[i].1),
            #[trigger] maps[i],
        )
}

pub open spec fn raster_sides(parts: Seq<&RasterChunk>) -> Seq<(usize, usize)> {
    Seq::new(parts.len(), |i: int| (parts[i].width, parts[i].height))
}

pub open spec fn tensor_sides(parts: Seq<&TensorChunk>) -> Seq<(usize, usize)> {
    Seq::new(parts.len(), |i: int| (parts[i].width, parts[i].height))
}

/// A chunk is what chunks of one kind make up over a window.
pub open spec fn makes_up<
    P: Fn(usize, usize, usize) -> ChunkMap,
    C: Fn(&Bbox, &Vec<Coord>, bool) -> Vec<Vec<Coord>>,
>(
    p: P,
    cut: C,
    chunks: Seq<&Chunk>,
    cols: int,
    rows: int,
    caps: Caps,
    place: Placement,
    r: Chunk,
) -> bool {
    match caps {
        Caps::Raster(c) => {
            let parts = raster_parts(chunks);
            r matches Chunk::Raster(out) && {
                &&& out.wf()
                &&& out.width == cols
                &&& out.height == rows
                &&& out.place == place
                &&& exists|maps: Seq<ChunkMap>| #[trigger]
                    maps_of(p, raster_sides(parts), maps) && chunk::bands_model(out.bands@)
                        == Seq::new(
                        bands_out(parts, c) as nat,
                        |b: int| assembled_band(parts, maps, b, cols, rows),
                    )
            }
        },
        Caps::PointCloud(_) => r matches Chunk::PointCloud(out) && out.place == place
            && out.points@ == points_within(
            point_parts(chunks),
            place.bbox,
            chunks.len() as int,
        ),
        Caps::Vector(_) => {
            r matches Chunk::Vector(out) && {
                &&& out.place == place
                &&& fragments::ordered(chunk::features_model(out.features@))
                &&& exists|parts: Seq<FeatureModel>| #[trigger]
                    cutting::clips_to(
                        cut,
                        place.bbox,
                        vector::all_features(vector_parts(chunks), chunks.len() as int),
                        parts,
                    ) && same_fragments(parts, chunk::features_model(out.features@))
            }
        },
        Caps::Tensor(c) => {
            let parts = tensor_parts(chunks);
            r matches Chunk::Tensor(out) && {
                &&& out.wf()
                &&& out.channels == channels_out(parts, c)
                &&& out.width == cols
                &&& out.height == rows
                &&& out.place == place
                &&& exists|maps: Seq<ChunkMap>| #[trigger]
                    maps_of(p, tensor_sides(parts), maps) && out.data@ == assembled_channels(
                        parts,
                        maps,
                        cols,
                        rows,
                        out.channels as int,
                    )
            }
        },
    }
}

/// The same fragments, those of each feature in the same order.
pub open spec fn same_fragments(a: Seq<FeatureModel>, b: Seq<FeatureModel>) -> bool {
    &&& a.len() == b.len()
    &&& forall|id: u64| #[trigger] fragments::with_id(a, id) == fragments::with_id(b, id)
}

/// The chunks are whole and no later one has more bands, or fewer channels,
/// than the first.
pub open spec fn chunks_agree(chunks: Seq<&Chunk>) -> bool {
    &&& forall|i: int| 0 <= i < chunks.len() ==> (#[trigger] chunks[i]).wf()
    &&& forall|i: int|
        0 <= i < chunks.len() ==> match (*chunks[0], *(#[trigger] chunks[i])) {
            (Chunk::Raster(a), Chunk::Raster(b)) => b.bands@.len() <= a.bands@.len(),
            (Chunk::Tensor(a), Chunk::Tensor(b)) => b.channels >= a.channels,
            _ => true,
        }
}

fn lay_out<P: Fn(usize, usize, usize) -> ChunkMap>(p: &P, sides: &Vec<(usize, usize)>) -> (r: Vec<
    ChunkMap,
>)
    requires
        is_mapping(*p),
    ensures
        maps_of(*p, sides@, r@),
{
    let mut r: Vec<ChunkMap> = Vec::new();
    for i in 0..sides.len()
        invariant
            is_mapping(*p),
            r@.len() == i,
            forall|k: int|
                0 <= k < i ==> p.ensures((k as usize, sides@[k].0, sides@[k].1), #[trigger] r@[k]),
    {
        r.push(p(i, sides[i].0, sides[i].1));
    }
    r
}

/// Put chunks of one level together into one window: `p` says where the
/// rows and columns of each fall, `cut` cuts a line or a ring to
/// a window.
pub fn assemble<
    P: Fn(usize, usize, usize) -> ChunkMap,
    C: Fn(&Bbox, &Vec<Coord>, bool) -> Vec<Vec<Coord>>,
>(
    p: &P,
    cut: &C,
    chunks: &Vec<&Chunk>,
    cols: usize,
    rows: usize,
    caps: &Caps,
    place: Placement,
) -> (r: Result<Chunk, Error>)
    requires
        is_mapping(*p),
        cutting::can_cut(*cut),
        cols * rows <= usize::MAX,
        chunks_agree(chunks@),
    ensures
        match r {
            Ok(out) => all_of_kind(chunks@, *caps) && makes_up(
                *p,
                *cut,
                chunks@,
                cols as int,
                rows as int,
                *caps,
                place,
                out,
            ),
            Err(e) => !all_of_kind(chunks@, *caps) && e == Error::Kind(kind_of(*caps)),
        },
{
    match caps {
        Caps::Raster(c) => match rasters(chunks) {
            Ok(parts) => {
                assert(parts@ =~= raster_parts(chunks@));
                let mut sides: Vec<(usize, usize)> = Vec::new();
                for i in 0..parts.len()
                    invariant
                        sides@ == raster_sides(parts@).take(i as int),
                {
                    sides.push((parts[i].width, parts[i].height));
                    assert(sides@ =~= raster_sides(parts@).take(i + 1));
                }
                assert(sides@ =~= raster_sides(parts@));
                let maps = lay_out(p, &sides);
                assert forall|i: int| 0 <= i < parts@.len() implies (#[trigger] parts@[i]).wf()
                    && maps@[i].rows@.len() == parts@[i].height && maps@[i].cols@.len()
                    == parts@[i].width && parts@[i].bands@.len() <= bands_out(parts@, *c) by {
                    assert(chunks@[i].wf());
                    assert(*chunks@[i] == Chunk::Raster(*parts@[i]));
                    assert(*chunks@[0] == Chunk::Raster(*parts@[0]));
                    assert(p.ensures((i as usize, sides@[i].0, sides@[i].1), maps@[i]));
                }
                Ok(Chunk::Raster(assemble_raster(&parts, &maps, cols, rows, c, place)))
            },
            Err(e) => Err(e),
        },
        Caps::PointCloud(_) => match point_clouds(chunks) {
            Ok(parts) => {
                assert(parts@ =~= point_parts(chunks@));
                Ok(Chunk::PointCloud(assemble_points(&parts, place)))
            },
            Err(e) => Err(e),
        },
        Caps::Vector(_) => match vectors(chunks) {
            Ok(parts) => {
                assert(parts@ =~= vector_parts(chunks@));
                let gathered = vector::gather_features(&parts);
                let pieces = cutting::cut_features(cut, &place.bbox, &gathered);
                let whole = vector::assemble_vectors(&gathered, &pieces, place);
                proof {
                    let fs = chunk::features_model(gathered@);
                    let parts = vector::clipped_features(
                        fs,
                        place.bbox,
                        geometry::pieces_model(pieces@),
                    );
                    assert(cutting::clips_to(*cut, place.bbox, fs, parts));
                }
                Ok(Chunk::Vector(whole))
            },
            Err(e) => Err(e),
        },
        Caps::Tensor(c) => match tensors(chunks) {
            Ok(parts) => {
                assert(parts@ =~= tensor_parts(chunks@));
                let mut sides: Vec<(usize, usize)> = Vec::new();
                for i in 0..parts.len()
                    invariant
                        sides@ == tensor_sides(parts@).take(i as int),
                {
                    sides.push((parts[i].width, parts[i].height));
                    assert(sides@ =~= tensor_sides(parts@).take(i + 1));
                }
                assert(sides@ =~= tensor_sides(parts@));
                let maps = lay_out(p, &sides);
                assert forall|i: int| 0 <= i < parts@.len() implies (#[trigger] parts@[i]).wf()
                    && maps@[i].rows@.len() == parts@[i].height && maps@[i].cols@.len()
                    == parts@[i].width && parts@[i].channels >= channels_out(parts@, *c) by {
                    assert(chunks@[i].wf());
                    assert(*chunks@[i] == Chunk::Tensor(*parts@[i]));
                    assert(*chunks@[0] == Chunk::Tensor(*parts@[0]));
                    assert(p.ensures((i as usize, sides@[i].0, sides@[i].1), maps@[i]));
                }
                Ok(Chunk::Tensor(assemble_tensor(&parts, &maps, cols, rows, c, place)))
            },
            Err(e) => Err(e),
        },
    }
}

} // verus!
