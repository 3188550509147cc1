//! What an assembled window holds, place by place.

use vstd::prelude::*;

use crate::assemble;
use crate::assemble::ChunkMap;
use crate::caps::{Caps, PointCaps, RasterCaps, TensorCaps, VectorCaps};
use crate::chunk;
use crate::chunk::{
    BandModel, Chunk, Coord, FeatureModel, Placement, Point3, PointChunk, RasterChunk, TensorChunk,
};
use crate::chunk_ops;
use crate::cutting;
use crate::fragments;
use crate::geometry;
use crate::number;
use crate::number::Real;
use crate::vector;
use crate::window::Bbox;

verus! {

/// A cell of a chunk lies at a row and a column of the window.
pub open spec fn lies_at(map: ChunkMap, r: int, c: int, row: usize, col: usize) -> bool {
    map.rows@[r] == Some(row) && map.cols@[c] == Some(col)
}

/// No cell of a chunk of so many rows and columns lies at a place, but for
/// one.
pub open spec fn only_cell_there(
    map: ChunkMap,
    width: int,
    height: int,
    row: usize,
    col: usize,
    r: int,
    c: int,
) -> bool {
    forall|y: int, x: int|
        0 <= y < height && 0 <= x < width && #[trigger] lies_at(map, y, x, row, col) ==> y == r && x
            == c
}

/// No cell of a chunk of so many rows and columns lies at a place.
pub open spec fn misses(map: ChunkMap, width: int, height: int, row: usize, col: usize) -> bool {
    forall|y: int, x: int|
        0 <= y < height && 0 <= x < width ==> !#[trigger] lies_at(map, y, x, row, col)
}

proof fn place_of_cell(row: usize, col: usize, cols: usize, rows: usize, a: usize, b: usize)
    requires
        row < rows,
        col < cols,
        a < rows,
        b < cols,
    ensures
        0 <= row * cols + col < cols * rows,
        row * cols + col == a * cols + b ==> row == a && col == b,
{
    assert(0 <= row * cols + col < cols * rows) by (nonlinear_arith)
        requires
            row < rows,
            col < cols,
            0 <= row,
            0 <= col,
    ;
    vstd::arithmetic::div_mod::lemma_fundamental_div_mod_converse(
        row * cols + col,
        cols as int,
        row as int,
        col as int,
    );
    vstd::arithmetic::div_mod::lemma_fundamental_div_mod_converse(
        a * cols + b,
        cols as int,
        a as int,
        b as int,
    );
}

proof fn falls_where_it_lies(
    map: ChunkMap,
    width: int,
    height: int,
    cols: usize,
    rows: usize,
    cell: int,
    row: usize,
    col: usize,
)
    requires
        0 <= cell < width * height,
        width >= 0,
        row < rows,
        col < cols,
    ensures
        0 <= cell / width < height,
        0 <= cell % width < width,
        assemble::falls_on(width, map, cols as int, rows as int, cell, row * cols + col) == lies_at(
            map,
            cell / width,
            cell % width,
            row,
            col,
        ),
{
    assert(width > 0) by (nonlinear_arith)
        requires
            0 <= cell < width * height,
            width >= 0,
    ;
    vstd::arithmetic::div_mod::lemma_fundamental_div_mod(cell, width);
    let r = cell / width;
    let c = cell % width;
    assert(0 <= r < height) by (nonlinear_arith)
        requires
            cell == width * r + c,
            0 <= cell < width * height,
            0 <= c < width,
    ;
    if let (Some(a), Some(b)) = (map.rows@[r], map.cols@[c]) {
        if a < rows && b < cols {
            place_of_cell(row, col, cols, rows, a, b);
        }
    }
}

/// A plane laid onto a window: the place where one of its cells lies, and no
/// other, holds that cell, and a place where none lies stays as it was.
pub proof fn a_plane_lands<T>(
    base: Seq<T>,
    data: Seq<T>,
    map: ChunkMap,
    width: int,
    height: int,
    cols: usize,
    rows: usize,
    row: usize,
    col: usize,
    r: int,
    c: int,
)
    requires
        base.len() == cols * rows,
        0 <= width,
        0 <= height,
        row < rows,
        col < cols,
    ensures
        ({
            let after = assemble::painted(
                base,
                data,
                width,
                map,
                cols as int,
                rows as int,
                width * height,
            );
            &&& after.len() == base.len()
            &&& 0 <= row * cols + col < base.len()
            &&& 0 <= r < height && 0 <= c < width && lies_at(map, r, c, row, col)
                && only_cell_there(map, width, height, row, col, r, c) ==> after[row * cols + col]
                == data[r * width + c]
            &&& misses(map, width, height, row, col) ==> after[row * cols + col] == base[row * cols
                + col]
        }),
{
    let n = width * height;
    let at = row * cols + col;
    place_of_cell(row, col, cols, rows, row, col);
    assemble::painting_keeps_length(base, data, width, map, cols as int, rows as int, n);
    if misses(map, width, height, row, col) {
        assert forall|k: int| 0 <= k < n && k != -1 implies !#[trigger] assemble::falls_on(
            width,
            map,
            cols as int,
            rows as int,
            k,
            at,
        ) by {
            falls_where_it_lies(map, width, height, cols, rows, k, row, col);
        }
        assemble::a_cell_lands_where_it_falls(
            base,
            data,
            width,
            map,
            cols as int,
            rows as int,
            n,
            at,
            -1,
        );
    }
    if 0 <= r < height && 0 <= c < width && lies_at(map, r, c, row, col) && only_cell_there(
        map,
        width,
        height,
        row,
        col,
        r,
        c,
    ) {
        let cell = r * width + c;
        assert(0 <= cell < n) by (nonlinear_arith)
            requires
                cell == r * width + c,
                n == width * height,
                0 <= r < height,
                0 <= c < width,
        ;
        vstd::arithmetic::div_mod::lemma_fundamental_div_mod_converse(cell, width, r, c);
        falls_where_it_lies(map, width, height, cols, rows, cell, row, col);
        assert forall|k: int| 0 <= k < n && k != cell implies !#[trigger] assemble::falls_on(
            width,
            map,
            cols as int,
            rows as int,
            k,
            at,
        ) by {
            falls_where_it_lies(map, width, height, cols, rows, k, row, col);
            vstd::arithmetic::div_mod::lemma_fundamental_div_mod(k, width);
            assert((k / width) * width == width * (k / width)) by (nonlinear_arith);
        }
        assemble::a_cell_lands_where_it_falls(
            base,
            data,
            width,
            map,
            cols as int,
            rows as int,
            n,
            at,
            cell,
        );
    }
}

// Rasters.

/// Bands are what `assemble_raster` makes of chunks.
pub open spec fn are_assembled(
    chunks: Seq<&RasterChunk>,
    maps: Seq<ChunkMap>,
    caps: RasterCaps,
    cols: usize,
    rows: usize,
    bands: Seq<BandModel>,
) -> bool {
    bands == Seq::new(
        assemble::bands_out(chunks, caps) as nat,
        |b: int| assemble::assembled_band(chunks, maps, b, cols as int, rows as int),
    )
}

/// A chunk has a band, and a cell of it lies at a place.
pub open spec fn shows(
    chunks: Seq<&RasterChunk>,
    maps: Seq<ChunkMap>,
    j: int,
    b: int,
    row: usize,
    col: usize,
) -> bool {
    b < chunks[j].bands@.len() && !misses(
        maps[j],
        chunks[j].width as int,
        chunks[j].height as int,
        row,
        col,
    )
}

proof fn nothing_later_shows(
    base: Seq<Real>,
    chunks: Seq<&RasterChunk>,
    maps: Seq<ChunkMap>,
    cols: usize,
    rows: usize,
    b: int,
    row: usize,
    col: usize,
    from: int,
    to: int,
)
    requires
        base.len() == cols * rows,
        assemble::mapped(chunks, maps),
        0 <= from <= to <= chunks.len(),
        row < rows,
        col < cols,
        forall|j: int| from <= j < to ==> !#[trigger] shows(chunks, maps, j, b, row, col),
    ensures
        ({
            let late = assemble::painted_band(base, chunks, maps, b, cols as int, rows as int, to);
            let early = assemble::painted_band(
                base,
                chunks,
                maps,
                b,
                cols as int,
                rows as int,
                from,
            );
            &&& late.len() == base.len()
            &&& early.len() == base.len()
            &&& 0 <= row * cols + col < base.len()
            &&& late[row * cols + col] == early[row * cols + col]
        }),
    decreases to,
{
    place_of_cell(row, col, cols, rows, row, col);
    if from < to {
        nothing_later_shows(base, chunks, maps, cols, rows, b, row, col, from, to - 1);
        let c = chunks[to - 1];
        assert(!shows(chunks, maps, to - 1, b, row, col));
        if b < c.bands@.len() {
            a_plane_lands(
                assemble::painted_band(base, chunks, maps, b, cols as int, rows as int, to - 1),
                c.bands@[b].data@,
                maps[to - 1],
                c.width as int,
                c.height as int,
                cols,
                rows,
                row,
                col,
                0,
                0,
            );
        }
    } else if to > 0 {
        nothing_later_shows(base, chunks, maps, cols, rows, b, row, col, to - 1, to - 1);
        let c = chunks[to - 1];
        if b < c.bands@.len() {
            assemble::painting_keeps_length(
                assemble::painted_band(base, chunks, maps, b, cols as int, rows as int, to - 1),
                c.bands@[b].data@,
                c.width as int,
                maps[to - 1],
                cols as int,
                rows as int,
                c.width * c.height,
            );
        }
    }
}

/// Every pixel of an assembled raster is the pixel, of the same band, of the
/// last chunk that has one there.
pub proof fn a_pixel_is_that_of_its_chunk(
    chunks: Seq<&RasterChunk>,
    maps: Seq<ChunkMap>,
    caps: RasterCaps,
    cols: usize,
    rows: usize,
    bands: Seq<BandModel>,
    k: int,
    b: int,
    r: int,
    c: int,
    row: usize,
    col: usize,
)
    requires
        assemble::mapped(chunks, maps),
        are_assembled(chunks, maps, caps, cols, rows, bands),
        0 <= k < chunks.len(),
        0 <= b < chunks[k].bands@.len(),
        b < chunks[0].bands@.len(),
        0 <= r < chunks[k].height,
        0 <= c < chunks[k].width,
        row < rows,
        col < cols,
        lies_at(maps[k], r, c, row, col),
        only_cell_there(
            maps[k],
            chunks[k].width as int,
            chunks[k].height as int,
            row,
            col,
            r,
            c,
        ),
        forall|j: int|
            k < j < chunks.len() ==> !#[trigger] shows(chunks, maps, j, b, row, col),
    ensures
        b < bands.len(),
        bands[b].data.len() == cols * rows,
        bands[b].data[row * cols + col] == chunks[k].bands@[b].data@[r * chunks[k].width + c],
{
    let base = Seq::new((cols * rows) as nat, |i: int| assemble::blank(chunks));
    assert(cols * rows >= 0) by (nonlinear_arith);
    let n = chunks.len() as int;
    nothing_later_shows(base, chunks, maps, cols, rows, b, row, col, k + 1, n);
    nothing_later_shows(base, chunks, maps, cols, rows, b, row, col, k, k);
    a_plane_lands(
        assemble::painted_band(base, chunks, maps, b, cols as int, rows as int, k),
        chunks[k].bands@[b].data@,
        maps[k],
        chunks[k].width as int,
        chunks[k].height as int,
        cols,
        rows,
        row,
        col,
        r,
        c,
    );
    assert(bands[b] == assemble::assembled_band(chunks, maps, b, cols as int, rows as int));
}

/// A pixel of an assembled raster where no chunk has one holds the value for
/// no data of the first chunk's first band, which stands for no data in
/// every band; without chunks it is no number.
pub proof fn a_gap_has_no_data(
    chunks: Seq<&RasterChunk>,
    maps: Seq<ChunkMap>,
    caps: RasterCaps,
    cols: usize,
    rows: usize,
    bands: Seq<BandModel>,
    b: int,
    row: usize,
    col: usize,
)
    requires
        assemble::mapped(chunks, maps),
        are_assembled(chunks, maps, caps, cols, rows, bands),
        0 <= b < bands.len(),
        row < rows,
        col < cols,
        forall|j: int|
            0 <= j < chunks.len() ==> !#[trigger] shows(chunks, maps, j, b, row, col),
    ensures
        bands[b].data[row * cols + col] == bands[b].nodata,
        chunks.len() > 0 ==> bands.len() == chunks[0].bands@.len() && bands[b].nodata
            == chunks[0].bands@[0].nodata,
        chunks.len() == 0 ==> bands.len() == caps.bands && bands[b].nodata.bits
            == number::NAN_BITS,
{
    let base = Seq::new((cols * rows) as nat, |i: int| assemble::blank(chunks));
    assert(cols * rows >= 0) by (nonlinear_arith);
    nothing_later_shows(base, chunks, maps, cols, rows, b, row, col, 0, chunks.len() as int);
    assert(bands[b] == assemble::assembled_band(chunks, maps, b, cols as int, rows as int));
}

// Tensors.

/// A cell of a tensor chunk lies at a place.
pub open spec fn tensor_shows(
    chunks: Seq<&TensorChunk>,
    maps: Seq<ChunkMap>,
    j: int,
    row: usize,
    col: usize,
) -> bool {
    !misses(maps[j], chunks[j].width as int, chunks[j].height as int, row, col)
}

proof fn no_later_tensor_shows(
    base: Seq<u32>,
    chunks: Seq<&TensorChunk>,
    maps: Seq<ChunkMap>,
    cols: usize,
    rows: usize,
    channel: int,
    row: usize,
    col: usize,
    from: int,
    to: int,
)
    requires
        base.len() == cols * rows,
        assemble::tensors_mapped(chunks, maps),
        0 <= from <= to <= chunks.len(),
        row < rows,
        col < cols,
        forall|j: int| from <= j < to ==> !#[trigger] tensor_shows(chunks, maps, j, row, col),
    ensures
        ({
            let late = assemble::painted_channel(
                base,
                chunks,
                maps,
                channel,
                cols as int,
                rows as int,
                to,
            );
            let early = assemble::painted_channel(
                base,
                chunks,
                maps,
                channel,
                cols as int,
                rows as int,
                from,
            );
            &&& late.len() == base.len()
            &&& early.len() == base.len()
            &&& 0 <= row * cols + col < base.len()
            &&& late[row * cols + col] == early[row * cols + col]
        }),
    decreases to,
{
    place_of_cell(row, col, cols, rows, row, col);
    if from < to {
        no_later_tensor_shows(base, chunks, maps, cols, rows, channel, row, col, from, to - 1);
        let c = chunks[to - 1];
        assert(!tensor_shows(chunks, maps, to - 1, row, col));
        a_plane_lands(
            assemble::painted_channel(
                base,
                chunks,
                maps,
                channel,
                cols as int,
                rows as int,
                to - 1,
            ),
            chunk_ops::plane_of(c.data@, channel, c.width * c.height),
            maps[to - 1],
            c.width as int,
            c.height as int,
            cols,
            rows,
            row,
            col,
            0,
            0,
        );
    } else if to > 0 {
        no_later_tensor_shows(base, chunks, maps, cols, rows, channel, row, col, to - 1, to - 1);
        let c = chunks[to - 1];
        assemble::painting_keeps_length(
            assemble::painted_channel(
                base,
                chunks,
                maps,
                channel,
                cols as int,
                rows as int,
                to - 1,
            ),
            chunk_ops::plane_of(c.data@, channel, c.width * c.height),
            c.width as int,
            maps[to - 1],
            cols as int,
            rows as int,
            c.width * c.height,
        );
    }
}

proof fn channel_of_assembled(
    chunks: Seq<&TensorChunk>,
    maps: Seq<ChunkMap>,
    cols: usize,
    rows: usize,
    n: int,
    channel: int,
    at: int,
)
    requires
        assemble::tensors_mapped(chunks, maps),
        0 <= channel < n,
        0 <= at < cols * rows,
    ensures
        ({
            let all = assemble::assembled_channels(chunks, maps, cols as int, rows as int, n);
            &&& all.len() == n * (cols * rows)
            &&& 0 <= channel * (cols * rows) + at < all.len()
            &&& all[channel * (cols * rows) + at] == assemble::painted_channel(
                Seq::new((cols * rows) as nat, |i: int| assemble::NAN_WORD),
                chunks,
                maps,
                channel,
                cols as int,
                rows as int,
                chunks.len() as int,
            )[at]
        }),
    decreases n,
{
    let size = cols * rows;
    let base = Seq::new(size as nat, |i: int| assemble::NAN_WORD);
    let all = assemble::assembled_channels(chunks, maps, cols as int, rows as int, n);
    let before = assemble::assembled_channels(chunks, maps, cols as int, rows as int, n - 1);
    assembled_length(chunks, maps, cols, rows, n - 1);
    assembled_length(chunks, maps, cols, rows, n);
    painted_length(base, chunks, maps, cols, rows, n - 1, chunks.len() as int);
    assert(0 <= channel * size + at < n * size) by (nonlinear_arith)
        requires
            0 <= channel < n,
            0 <= at < size,
    ;
    if channel < n - 1 {
        channel_of_assembled(chunks, maps, cols, rows, n - 1, channel, at);
        assert(all[channel * size + at] == before[channel * size + at]);
    } else {
        assert(before.len() == channel * size);
        assert(all[channel * size + at] == assemble::painted_channel(
            base,
            chunks,
            maps,
            n - 1,
            cols as int,
            rows as int,
            chunks.len() as int,
        )[at]);
    }
}

proof fn painted_length(
    base: Seq<u32>,
    chunks: Seq<&TensorChunk>,
    maps: Seq<ChunkMap>,
    cols: usize,
    rows: usize,
    channel: int,
    k: int,
)
    requires
        base.len() == cols * rows,
        0 <= k <= chunks.len(),
    ensures
        assemble::painted_channel(base, chunks, maps, channel, cols as int, rows as int, k).len()
            == base.len(),
    decreases k,
{
    if k > 0 {
        painted_length(base, chunks, maps, cols, rows, channel, k - 1);
        let c = chunks[k - 1];
        assemble::painting_keeps_length(
            assemble::painted_channel(
                base,
                chunks,
                maps,
                channel,
                cols as int,
                rows as int,
                k - 1,
            ),
            chunk_ops::plane_of(c.data@, channel, c.width * c.height),
            c.width as int,
            maps[k - 1],
            cols as int,
            rows as int,
            c.width * c.height,
        );
    }
}

proof fn assembled_length(
    chunks: Seq<&TensorChunk>,
    maps: Seq<ChunkMap>,
    cols: usize,
    rows: usize,
    n: int,
)
    requires
        0 <= n,
    ensures
        assemble::assembled_channels(chunks, maps, cols as int, rows as int, n).len() == n * (cols
            * rows),
    decreases n,
{
    assert(cols * rows >= 0) by (nonlinear_arith);
    if n > 0 {
        assembled_length(chunks, maps, cols, rows, n - 1);
        painted_length(
            Seq::new((cols * rows) as nat, |i: int| assemble::NAN_WORD),
            chunks,
            maps,
            cols,
            rows,
            n - 1,
            chunks.len() as int,
        );
        assert((n - 1) * (cols * rows) + cols * rows == n * (cols * rows)) by (nonlinear_arith);
    } else {
        assert(0 * (cols * rows) == 0);
    }
}

/// Every element of an assembled tensor is the element, of the same channel,
/// of the last chunk that has one there; where none has, it is no number.
pub proof fn an_element_is_that_of_its_chunk(
    chunks: Seq<&TensorChunk>,
    maps: Seq<ChunkMap>,
    cols: usize,
    rows: usize,
    channels: int,
    data: Seq<u32>,
    k: int,
    channel: int,
    r: int,
    c: int,
    row: usize,
    col: usize,
)
    requires
        assemble::tensors_mapped(chunks, maps),
        data == assemble::assembled_channels(chunks, maps, cols as int, rows as int, channels),
        0 <= channel < channels,
        row < rows,
        col < cols,
        -1 <= k < chunks.len(),
        forall|j: int| k < j < chunks.len() ==> !#[trigger] tensor_shows(chunks, maps, j, row, col),
        k >= 0 ==> channel < chunks[k].channels && 0 <= r < chunks[k].height && 0 <= c
            < chunks[k].width && lies_at(maps[k], r, c, row, col) && only_cell_there(
            maps[k],
            chunks[k].width as int,
            chunks[k].height as int,
            row,
            col,
            r,
            c,
        ),
    ensures
        data.len() == channels * (cols * rows),
        k >= 0 ==> data[channel * (cols * rows) + (row * cols + col)]
            == chunks[k].data@[channel * (chunks[k].width * chunks[k].height) + (r
            * chunks[k].width + c)],
        k < 0 ==> data[channel * (cols * rows) + (row * cols + col)] == 0x7fc0_0000u32,
{
    let base = Seq::new((cols * rows) as nat, |i: int| assemble::NAN_WORD);
    assert(cols * rows >= 0) by (nonlinear_arith);
    let n = chunks.len() as int;
    place_of_cell(row, col, cols, rows, row, col);
    channel_of_assembled(chunks, maps, cols, rows, channels, channel, row * cols + col);
    no_later_tensor_shows(base, chunks, maps, cols, rows, channel, row, col, k + 1, n);
    if k >= 0 {
        no_later_tensor_shows(base, chunks, maps, cols, rows, channel, row, col, k, k);
        let t = chunks[k];
        let size = t.width * t.height;
        let plane = chunk_ops::plane_of(t.data@, channel, size);
        a_plane_lands(
            assemble::painted_channel(base, chunks, maps, channel, cols as int, rows as int, k),
            plane,
            maps[k],
            t.width as int,
            t.height as int,
            cols,
            rows,
            row,
            col,
            r,
            c,
        );
        assert(0 <= r * t.width + c < size) by (nonlinear_arith)
            requires
                size == t.width * t.height,
                0 <= r < t.height,
                0 <= c < t.width,
        ;
        assert(t.wf());
        chunk_ops::channels_fit(channel, t.channels as int, size);
        assert(plane[r * t.width + c] == t.data@[channel * size + (r * t.width + c)]);
    }
}

// Points.

/// How often a point occurs in the first `k` chunks.
pub open spec fn occurrences(chunks: Seq<&PointChunk>, p: Point3, k: int) -> nat
    decreases k,
{
    if k <= 0 {
        0
    } else {
        occurrences(chunks, p, k - 1) + chunks[k - 1].points@.to_multiset().count(p)
    }
}

proof fn filter_counts(points: Seq<Point3>, keep: spec_fn(Point3) -> bool, p: Point3)
    ensures
        points.filter(keep).to_multiset().count(p) == (if keep(p) {
            points.to_multiset().count(p)
        } else {
            0
        }),
    decreases points.len(),
{
    broadcast use vstd::seq_lib::group_to_multiset_ensures;

    reveal(Seq::filter);
    if points.len() > 0 {
        let rest = points.drop_last();
        filter_counts(rest, keep, p);
        assert(points =~= rest.push(points.last()));
        if keep(points.last()) {
            assert(points.filter(keep) =~= rest.filter(keep).push(points.last()));
        } else {
            assert(points.filter(keep) =~= rest.filter(keep));
        }
    }
}

/// A window holds every point of the chunks that lies in it, its left and
/// upper edge with it and its right and lower edge without, as often as it
/// occurs, and no other point.
pub proof fn points_inside_stay(chunks: Seq<&PointChunk>, window: Bbox, p: Point3, k: int)
    requires
        0 <= k <= chunks.len(),
    ensures
        assemble::points_within(chunks, window, k).to_multiset().count(p) == (if !p.x.nan()
            && !p.y.nan() && !window.min_x.nan() && !window.max_x.nan() && !window.min_y.nan()
            && !window.max_y.nan() && window.min_x.place() <= p.x.place() < window.max_x.place()
            && window.min_y.place() < p.y.place() <= window.max_y.place() {
            occurrences(chunks, p, k)
        } else {
            0
        }),
    decreases k,
{
    broadcast use vstd::seq_lib::group_to_multiset_ensures;

    if k > 0 {
        points_inside_stay(chunks, window, p, k - 1);
        let keep = |p: Point3| geometry::inside(window, Coord { x: p.x, y: p.y });
        filter_counts(chunks[k - 1].points@, keep, p);
        let before = assemble::points_within(chunks, window, k - 1);
        let more = chunks[k - 1].points@.filter(keep);
        vstd::seq_lib::lemma_multiset_commutative(before, more);
        assert(assemble::points_within(chunks, window, k) == before + more);
    }
}

/// Points keep the order of their chunks: those of the first chunks stand
/// before those of the others.
pub proof fn points_keep_their_order(
    a: Seq<&PointChunk>,
    b: Seq<&PointChunk>,
    window: Bbox,
    k: int,
)
    requires
        0 <= k <= b.len(),
    ensures
        assemble::points_within(a + b, window, a.len() + k) == assemble::points_within(
            a,
            window,
            a.len() as int,
        ) + assemble::points_within(b, window, k),
    decreases k,
{
    let first = assemble::points_within(a, window, a.len() as int);
    if k > 0 {
        points_keep_their_order(a, b, window, k - 1);
        assert((a + b)[a.len() + k - 1] == b[k - 1]);
        assert(assemble::points_within(a + b, window, a.len() + k) =~= first
            + assemble::points_within(b, window, k));
    } else {
        same_prefix(a, b, window, a.len() as int);
        assert(first + assemble::points_within(b, window, 0) =~= first);
    }
}

proof fn same_prefix(a: Seq<&PointChunk>, b: Seq<&PointChunk>, window: Bbox, k: int)
    requires
        0 <= k <= a.len(),
    ensures
        assemble::points_within(a + b, window, k) == assemble::points_within(a, window, k),
    decreases k,
{
    if k > 0 {
        same_prefix(a, b, window, k - 1);
        assert((a + b)[k - 1] == a[k - 1]);
    }
}

/// A chunk whose points all lie in the window comes out as it is.
pub proof fn points_inside_keep_their_order(chunk: &PointChunk, window: Bbox)
    requires
        forall|i: int| 0 <= i < chunk.points@.len() ==> geometry::inside(
            window,
            Coord { x: (#[trigger] chunk.points@[i]).x, y: chunk.points@[i].y },
        ),
    ensures
        assemble::points_within(seq![chunk], window, 1) == chunk.points@,
{
    let keep = |p: Point3| geometry::inside(window, Coord { x: p.x, y: p.y });
    keeps_all(chunk.points@, keep, chunk.points@.len() as int);
    assert(chunk.points@.take(chunk.points@.len() as int) =~= chunk.points@);
    assert(assemble::points_within(seq![chunk], window, 0) =~= Seq::empty());
    assert(assemble::points_within(seq![chunk], window, 1) =~= chunk.points@);
}

proof fn keeps_all(points: Seq<Point3>, keep: spec_fn(Point3) -> bool, n: int)
    requires
        0 <= n <= points.len(),
        forall|i: int| 0 <= i < points.len() ==> keep(#[trigger] points[i]),
    ensures
        points.take(n).filter(keep) == points.take(n),
    decreases n,
{
    reveal(Seq::filter);
    if n > 0 {
        keeps_all(points, keep, n - 1);
        assert(points.take(n).drop_last() =~= points.take(n - 1));
        assert(points.take(n - 1).push(points[n - 1]) =~= points.take(n));
    } else {
        assert(points.take(0) =~= Seq::empty());
    }
}

// Any kind.

/// What says where the rows and columns of a chunk fall says so in one way.
pub open spec fn maps_one_way<P: Fn(usize, usize, usize) -> ChunkMap>(p: P) -> bool {
    forall|k: usize, w: usize, h: usize, m: ChunkMap, n: ChunkMap| #[trigger]
        p.ensures((k, w, h), m) && #[trigger] p.ensures((k, w, h), n) ==> m == n
}

proof fn maps_are_the_same<P: Fn(usize, usize, usize) -> ChunkMap>(
    p: P,
    sides: Seq<(usize, usize)>,
    a: Seq<ChunkMap>,
    b: Seq<ChunkMap>,
)
    requires
        maps_one_way(p),
        assemble::maps_of(p, sides, a),
        assemble::maps_of(p, sides, b),
    ensures
        a == b,
{
    assert forall|i: int| 0 <= i < a.len() implies a[i] == b[i] by {
        assert(p.ensures((i as usize, sides[i].0, sides[i].1), a[i]));
        assert(p.ensures((i as usize, sides[i].0, sides[i].1), b[i]));
    }
    assert(a =~= b);
}

/// A window over rasters has the bands of the first of them, and every pixel
/// is that of the same band of the last raster that has one there.
pub proof fn a_window_over_rasters_shows_each_band<
    P: Fn(usize, usize, usize) -> ChunkMap,
    C: Fn(&Bbox, &Vec<Coord>, bool) -> Vec<Vec<Coord>>,
>(
    p: P,
    cut: C,
    chunks: Seq<&Chunk>,
    maps: Seq<ChunkMap>,
    caps: RasterCaps,
    place: Placement,
    cols: usize,
    rows: usize,
    made: Chunk,
    k: int,
    b: int,
    r: int,
    c: int,
    row: usize,
    col: usize,
)
    requires
        assemble::is_mapping(p),
        maps_one_way(p),
        assemble::chunks_agree(chunks),
        assemble::all_of_kind(chunks, Caps::Raster(caps)),
        assemble::maps_of(p, assemble::raster_sides(assemble::raster_parts(chunks)), maps),
        assemble::makes_up(
            p,
            cut,
            chunks,
            cols as int,
            rows as int,
            Caps::Raster(caps),
            place,
            made,
        ),
        0 <= k < chunks.len(),
        0 <= b < chunks[k]->Raster_0.bands@.len(),
        0 <= r < chunks[k]->Raster_0.height,
        0 <= c < chunks[k]->Raster_0.width,
        row < rows,
        col < cols,
        lies_at(maps[k], r, c, row, col),
        only_cell_there(
            maps[k],
            chunks[k]->Raster_0.width as int,
            chunks[k]->Raster_0.height as int,
            row,
            col,
            r,
            c,
        ),
        forall|j: int|
            k < j < chunks.len() ==> !#[trigger] shows(
                assemble::raster_parts(chunks),
                maps,
                j,
                b,
                row,
                col,
            ),
    ensures
        match made {
            Chunk::Raster(out) => {
                &&& out.width == cols
                &&& out.height == rows
                &&& out.place == place
                &&& out.bands@.len() == chunks[0]->Raster_0.bands@.len()
                &&& b < out.bands@.len()
                &&& out.bands@[b].data@.len() == cols * rows
                &&& out.bands@[b].data@[row * cols + col]
                    == chunks[k]->Raster_0.bands@[b].data@[r * chunks[k]->Raster_0.width + c]
            },
            _ => false,
        },
{
    let parts = assemble::raster_parts(chunks);
    let sides = assemble::raster_sides(parts);
    if let Chunk::Raster(out) = made {
        let bands = chunk::bands_model(out.bands@);
        let other = choose|other: Seq<ChunkMap>| #[trigger]
            assemble::maps_of(p, sides, other) && bands == Seq::new(
                assemble::bands_out(parts, caps) as nat,
                |b: int| assemble::assembled_band(parts, other, b, cols as int, rows as int),
            );
        maps_are_the_same(p, sides, maps, other);
        assert forall|i: int| 0 <= i < parts.len() implies (#[trigger] parts[i]).wf()
            && maps[i].rows@.len() == parts[i].height && maps[i].cols@.len()
            == parts[i].width by {
            assert(chunks[i].wf());
            assert(p.ensures((i as usize, sides[i].0, sides[i].1), maps[i]));
        }
        assert(*chunks[0] is Raster && *chunks[k] is Raster);
        assert(are_assembled(parts, maps, caps, cols, rows, bands));
        a_pixel_is_that_of_its_chunk(
            parts,
            maps,
            caps,
            cols,
            rows,
            bands,
            k,
            b,
            r,
            c,
            row,
            col,
        );
        assert(bands[b].data == out.bands@[b].data@);
    }
}

/// A window over tensors has the channels of the first of them, and every
/// element is that of the same channel of the last tensor that has one
/// there.
pub proof fn a_window_over_tensors_shows_each_channel<
    P: Fn(usize, usize, usize) -> ChunkMap,
    C: Fn(&Bbox, &Vec<Coord>, bool) -> Vec<Vec<Coord>>,
>(
    p: P,
    cut: C,
    chunks: Seq<&Chunk>,
    maps: Seq<ChunkMap>,
    caps: TensorCaps,
    place: Placement,
    cols: usize,
    rows: usize,
    made: Chunk,
    k: int,
    channel: int,
    r: int,
    c: int,
    row: usize,
    col: usize,
)
    requires
        assemble::is_mapping(p),
        maps_one_way(p),
        assemble::chunks_agree(chunks),
        assemble::all_of_kind(chunks, Caps::Tensor(caps)),
        assemble::maps_of(p, assemble::tensor_sides(assemble::tensor_parts(chunks)), maps),
        assemble::makes_up(
            p,
            cut,
            chunks,
            cols as int,
            rows as int,
            Caps::Tensor(caps),
            place,
            made,
        ),
        0 <= k < chunks.len(),
        0 <= channel < chunks[0]->Tensor_0.channels,
        0 <= r < chunks[k]->Tensor_0.height,
        0 <= c < chunks[k]->Tensor_0.width,
        row < rows,
        col < cols,
        lies_at(maps[k], r, c, row, col),
        only_cell_there(
            maps[k],
            chunks[k]->Tensor_0.width as int,
            chunks[k]->Tensor_0.height as int,
            row,
            col,
            r,
            c,
        ),
        forall|j: int|
            k < j < chunks.len() ==> !#[trigger] tensor_shows(
                assemble::tensor_parts(chunks),
                maps,
                j,
                row,
                col,
            ),
    ensures
        match made {
            Chunk::Tensor(out) => {
                let from = chunks[k]->Tensor_0;
                &&& out.width == cols
                &&& out.height == rows
                &&& out.place == place
                &&& out.channels == chunks[0]->Tensor_0.channels
                &&& out.data@[channel * (cols * rows) + (row * cols + col)]
                    == from.data@[channel * (from.width * from.height) + (r * from.width + c)]
            },
            _ => false,
        },
{
    let parts = assemble::tensor_parts(chunks);
    let sides = assemble::tensor_sides(parts);
    if let Chunk::Tensor(out) = made {
        let other = choose|other: Seq<ChunkMap>| #[trigger]
            assemble::maps_of(p, sides, other) && out.data@ == assemble::assembled_channels(
                parts,
                other,
                cols as int,
                rows as int,
                out.channels as int,
            );
        maps_are_the_same(p, sides, maps, other);
        assert forall|i: int| 0 <= i < parts.len() implies (#[trigger] parts[i]).wf()
            && maps[i].rows@.len() == parts[i].height && maps[i].cols@.len()
            == parts[i].width by {
            assert(chunks[i].wf());
            assert(p.ensures((i as usize, sides[i].0, sides[i].1), maps[i]));
        }
        assert(*chunks[0] is Tensor && *chunks[k] is Tensor);
        assert(parts[k].channels >= parts[0].channels);
        an_element_is_that_of_its_chunk(
            parts,
            maps,
            cols,
            rows,
            out.channels as int,
            out.data@,
            k,
            channel,
            r,
            c,
            row,
            col,
        );
    }
}

/// A window over point clouds holds every point of them that lies in it, as
/// often as it occurs, and no other.
pub proof fn a_window_over_points_holds_those_inside<
    P: Fn(usize, usize, usize) -> ChunkMap,
    C: Fn(&Bbox, &Vec<Coord>, bool) -> Vec<Vec<Coord>>,
>(
    p: P,
    cut: C,
    chunks: Seq<&Chunk>,
    caps: PointCaps,
    place: Placement,
    cols: int,
    rows: int,
    made: Chunk,
    x: Point3,
)
    requires
        assemble::makes_up(
            p,
            cut,
            chunks,
            cols,
            rows,
            Caps::PointCloud(caps),
            place,
            made,
        ),
    ensures
        match made {
            Chunk::PointCloud(out) => {
                let w = place.bbox;
                &&& out.place == place
                &&& out.points@.to_multiset().count(x) == (if !x.x.nan() && !x.y.nan()
                    && !w.min_x.nan() && !w.max_x.nan() && !w.min_y.nan() && !w.max_y.nan()
                    && w.min_x.place() <= x.x.place() < w.max_x.place() && w.min_y.place()
                    < x.y.place() <= w.max_y.place() {
                    occurrences(assemble::point_parts(chunks), x, chunks.len() as int)
                } else {
                    0
                })
            },
            _ => false,
        },
{
    points_inside_stay(assemble::point_parts(chunks), place.bbox, x, chunks.len() as int);
}

/// A window over features has as many fragments of each feature as the cut
/// leaves of it, in their order, under its own place.
pub proof fn a_window_over_features_keeps_every_fragment<
    P: Fn(usize, usize, usize) -> ChunkMap,
    C: Fn(&Bbox, &Vec<Coord>, bool) -> Vec<Vec<Coord>>,
>(
    p: P,
    cut: C,
    chunks: Seq<&Chunk>,
    caps: VectorCaps,
    place: Placement,
    cols: int,
    rows: int,
    made: Chunk,
    id: u64,
)
    requires
        assemble::makes_up(p, cut, chunks, cols, rows, Caps::Vector(caps), place, made),
    ensures
        match made {
            Chunk::Vector(out) => out.place == place && exists|parts: Seq<FeatureModel>| #[trigger]
                cutting::clips_to(
                    cut,
                    place.bbox,
                    vector::all_features(assemble::vector_parts(chunks), chunks.len() as int),
                    parts,
                ) && parts.len() == out.features@.len() && parts.filter(
                    |f: FeatureModel| f.id == id,
                ) == chunk::features_model(out.features@).filter(|f: FeatureModel| f.id == id),
            _ => false,
        },
{
    if let Chunk::Vector(out) = made {
        let all = vector::all_features(assemble::vector_parts(chunks), chunks.len() as int);
        let parts = choose|parts: Seq<FeatureModel>| #[trigger]
            cutting::clips_to(cut, place.bbox, all, parts) && assemble::same_fragments(
                parts,
                chunk::features_model(out.features@),
            );
        assert(fragments::with_id(parts, id) == fragments::with_id(
            chunk::features_model(out.features@),
            id,
        ));
        assert(parts.len() == out.features@.len());
    }
}

} // verus!
