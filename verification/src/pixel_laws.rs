//! Where the pixels of crops, coarser levels, mosaics, masks and images come
//! from.

use vstd::prelude::*;

use crate::chunk::Band;
use crate::chunk_ops;
use crate::elements;
use crate::elements::QualityMask;
use crate::encode;
use crate::number::Real;
use crate::resample;
use crate::resample::Sample;

verus! {

// Numbers.

/// The patterns that stand for no number are those past an infinity of
/// either sign, and those that stand for a finite one are those before it.
pub proof fn patterns_of_numbers(a: Real)
    ensures
        a.nan() == (0x7ff0_0000_0000_0000 < a.bits < 0x8000_0000_0000_0000 || a.bits
            > 0xfff0_0000_0000_0000),
        a.finite() == (a.bits < 0x7ff0_0000_0000_0000 || 0x8000_0000_0000_0000 <= a.bits
            < 0xfff0_0000_0000_0000),
{
}

/// Numbers are ordered as their patterns are where they have no sign, and
/// the other way round where they have one; one with a sign is below one
/// without, but both zeros are equal.
pub proof fn numbers_are_ordered_by_pattern(a: Real, b: Real)
    requires
        !a.nan(),
        !b.nan(),
    ensures
        a.bits < 0x8000_0000_0000_0000 && b.bits < 0x8000_0000_0000_0000 ==> a.below(b) == (a.bits
            < b.bits),
        a.bits >= 0x8000_0000_0000_0000 && b.bits >= 0x8000_0000_0000_0000 ==> a.below(b) == (
        a.bits > b.bits),
        a.bits >= 0x8000_0000_0000_0000 && b.bits < 0x8000_0000_0000_0000 ==> !b.below(a) && (
        a.below(b) == !(a.bits == 0x8000_0000_0000_0000 && b.bits == 0)),
        a.equals(b) == (!a.below(b) && !b.below(a)),
        a.at_most(b) == (a.below(b) || a.equals(b)),
        a.below(b) == (a.place() < b.place()),
{
}

/// Nothing compares with what is no number.
pub proof fn no_number_compares(a: Real, b: Real)
    requires
        a.nan() || b.nan(),
    ensures
        !a.below(b),
        !a.at_most(b),
        !a.equals(b),
{
}

/// The larger of two is one of them and not below the other, the smaller
/// likewise; where one is no number it is the other.
pub proof fn the_larger_and_the_smaller(a: Real, b: Real)
    ensures
        a.larger(b) == a || a.larger(b) == b,
        a.smaller(b) == a || a.smaller(b) == b,
        a.nan() ==> a.larger(b) == b && a.smaller(b) == b,
        !a.nan() && b.nan() ==> a.larger(b) == a && a.smaller(b) == a,
        !a.nan() && !b.nan() ==> !a.larger(b).below(a) && !a.larger(b).below(b) && !a.below(
            a.smaller(b),
        ) && !b.below(a.smaller(b)),
{
}

// Crops.

/// A crop holds at each row and column what the plane holds as many rows
/// and columns past its start.
pub proof fn a_crop_is_a_window<T>(
    data: Seq<T>,
    width: int,
    col0: int,
    row0: int,
    cols: int,
    rows: int,
    r: int,
    c: int,
)
    requires
        0 <= r < rows,
        0 <= c < cols,
    ensures
        chunk_ops::cut_out(data, width, col0, row0, cols, rows).len() == cols * rows,
        0 <= r * cols + c < cols * rows,
        chunk_ops::cut_out(data, width, col0, row0, cols, rows)[r * cols + c] == data[(row0 + r)
            * width + (col0 + c)],
{
    assert(0 <= r * cols + c < cols * rows) by (nonlinear_arith)
        requires
            0 <= r < rows,
            0 <= c < cols,
    ;
    vstd::arithmetic::div_mod::lemma_fundamental_div_mod_converse(r * cols + c, cols, r, c);
}

/// A stretch is cut to what lies inside an extent: as much of it as there is
/// from its start on, and never more than was wanted.
pub proof fn a_stretch_is_cut_to_its_extent(extent: usize, start: usize, wanted: usize)
    ensures
        ({
            let n = chunk_ops::fitted(extent, start, wanted);
            &&& n <= wanted
            &&& start + n <= extent || n == 0
            &&& n < wanted ==> start + n >= extent
        }),
{
}

/// A band that is cropped keeps its value for no data.
pub proof fn a_cropped_band_is_a_window(
    b: crate::chunk::BandModel,
    width: int,
    col0: int,
    row0: int,
    cols: int,
    rows: int,
    r: int,
    c: int,
)
    requires
        0 <= r < rows,
        0 <= c < cols,
    ensures
        chunk_ops::cropped_band(b, width, col0, row0, cols, rows).nodata == b.nodata,
        chunk_ops::cropped_band(b, width, col0, row0, cols, rows).data[r * cols + c] == b.data[(row0
            + r) * width + (col0 + c)],
{
    a_crop_is_a_window(b.data, width, col0, row0, cols, rows, r, c);
}

proof fn cropped_length(
    data: Seq<u32>,
    n: int,
    width: int,
    height: int,
    col0: int,
    row0: int,
    cols: int,
    rows: int,
)
    requires
        0 <= n,
        0 <= cols,
        0 <= rows,
    ensures
        chunk_ops::cropped_channels(data, n, width, height, col0, row0, cols, rows).len() == n
            * (cols * rows),
    decreases n,
{
    assert(cols * rows >= 0) by (nonlinear_arith)
        requires
            cols >= 0,
            rows >= 0,
    ;
    if n > 0 {
        cropped_length(data, n - 1, width, height, col0, row0, cols, rows);
        assert((n - 1) * (cols * rows) + cols * rows == n * (cols * rows)) by (nonlinear_arith);
    } else {
        assert(0 * (cols * rows) == 0);
    }
}

/// A cropped tensor holds in each channel that channel's own window.
pub proof fn a_cropped_channel_is_its_own_window(
    data: Seq<u32>,
    channels: int,
    width: int,
    height: int,
    col0: int,
    row0: int,
    cols: int,
    rows: int,
    channel: int,
    r: int,
    c: int,
)
    requires
        0 <= channel < channels,
        data.len() == channels * (width * height),
        0 <= col0,
        0 <= row0,
        col0 + cols <= width,
        row0 + rows <= height,
        0 <= r < rows,
        0 <= c < cols,
    ensures
        chunk_ops::cropped_channels(
            data,
            channels,
            width,
            height,
            col0,
            row0,
            cols,
            rows,
        )[channel * (cols * rows) + (r * cols + c)] == data[channel * (width * height) + ((row0 + r)
            * width + (col0 + c))],
{
    let size = width * height;
    let own = chunk_ops::plane_of(data, channel, size);
    assert(size >= 0) by (nonlinear_arith)
        requires
            size == width * height,
            width >= 0,
            height >= 0,
    ;
    chunk_ops::channels_fit(channel, channels, size);
    a_crop_is_a_window(own, width, col0, row0, cols, rows, r, c);
    let y = row0 + r;
    let x = col0 + c;
    assert(0 <= y * width + x < size) by (nonlinear_arith)
        requires
            size == width * height,
            0 <= y < height,
            0 <= x < width,
    ;
    assert(own[y * width + x] == data[channel * size + (y * width + x)]);
    cropped_element(data, channels, width, height, col0, row0, cols, rows, channel, r * cols + c);
}

proof fn cropped_element(
    data: Seq<u32>,
    n: int,
    width: int,
    height: int,
    col0: int,
    row0: int,
    cols: int,
    rows: int,
    channel: int,
    p: int,
)
    requires
        0 <= channel < n,
        0 <= cols,
        0 <= rows,
        0 <= p < cols * rows,
    ensures
        chunk_ops::cropped_channels(data, n, width, height, col0, row0, cols, rows)[channel * (cols
            * rows) + p] == chunk_ops::cut_out(
            chunk_ops::plane_of(data, channel, width * height),
            width,
            col0,
            row0,
            cols,
            rows,
        )[p],
    decreases n,
{
    let size = cols * rows;
    cropped_length(data, n - 1, width, height, col0, row0, cols, rows);
    cropped_length(data, n, width, height, col0, row0, cols, rows);
    let before = chunk_ops::cropped_channels(data, n - 1, width, height, col0, row0, cols, rows);
    let all = chunk_ops::cropped_channels(data, n, width, height, col0, row0, cols, rows);
    if channel < n - 1 {
        cropped_element(data, n - 1, width, height, col0, row0, cols, rows, channel, p);
        assert(0 <= channel * size + p < (n - 1) * size) by (nonlinear_arith)
            requires
                0 <= channel < n - 1,
                0 <= p < size,
        ;
        assert(all[channel * size + p] == before[channel * size + p]);
    } else {
        assert(before.len() == channel * size);
    }
}

// Samples.

/// A cell lies on a plane and has a finite value.
pub open spec fn has_value(
    data: Seq<Real>,
    nodata: Seq<bool>,
    width: int,
    height: int,
    r: int,
    c: int,
) -> bool {
    0 <= r < height && 0 <= c < width && !nodata[r * width + c] && data[r * width + c].finite()
}

/// A sample is made of the four cells around a place where all have a value,
/// the upper left one first, then the upper right, the lower left and the
/// lower right; else it is the first of them, in that order, that has one.
pub proof fn a_sample_is_of_the_cells_around(
    data: Seq<Real>,
    nodata: Seq<bool>,
    width: int,
    height: int,
    r: int,
    c: int,
)
    ensures
        ({
            let s = resample::sampled(data, nodata, width, height, r, c);
            let a = has_value(data, nodata, width, height, r, c);
            let b = has_value(data, nodata, width, height, r, c + 1);
            let d = has_value(data, nodata, width, height, r + 1, c);
            let e = has_value(data, nodata, width, height, r + 1, c + 1);
            &&& a && b && d && e ==> s == Sample::Blend(
                data[r * width + c],
                data[r * width + (c + 1)],
                data[(r + 1) * width + c],
                data[(r + 1) * width + (c + 1)],
            )
            &&& a && !(b && d && e) ==> s == Sample::Take(data[r * width + c])
            &&& !a && b ==> s == Sample::Take(data[r * width + (c + 1)])
            &&& !a && !b && d ==> s == Sample::Take(data[(r + 1) * width + c])
            &&& !a && !b && !d && e ==> s == Sample::Take(data[(r + 1) * width + (c + 1)])
            &&& !a && !b && !d && !e ==> s == Sample::Nothing
        }),
{
}

// Blocks.

/// A block of one cell holds its value, and nothing where it has none.
pub proof fn a_block_of_one_cell(
    data: Seq<Real>,
    nodata: Seq<bool>,
    width: int,
    height: int,
    r: int,
    c: int,
)
    ensures
        resample::block_values(data, nodata, width, height, (r, r + 1), (c, c + 1)) == (if has_value(
            data,
            nodata,
            width,
            height,
            r,
            c,
        ) {
            seq![data[r * width + c]]
        } else {
            Seq::<Real>::empty()
        }),
{
    let none = resample::block_values(data, nodata, width, height, (r, r), (c, c + 1));
    assert(none =~= Seq::empty());
    let row = resample::row_values(data, nodata, width, height, r, c, c + 1);
    assert(resample::row_values(data, nodata, width, height, r, c, c) =~= Seq::empty());
    let whole = resample::block_values(data, nodata, width, height, (r, r + 1), (c, c + 1));
    assert(whole == none + row);
    if has_value(data, nodata, width, height, r, c) {
        assert(whole =~= seq![data[r * width + c]]);
    } else {
        assert(whole =~= Seq::empty());
    }
}

/// The rows of a block follow each other.
pub proof fn a_block_is_its_rows(
    data: Seq<Real>,
    nodata: Seq<bool>,
    width: int,
    height: int,
    a: int,
    b: int,
    c: int,
    cols: (int, int),
)
    requires
        a <= b <= c,
    ensures
        resample::block_values(data, nodata, width, height, (a, c), cols) == resample::block_values(
            data,
            nodata,
            width,
            height,
            (a, b),
            cols,
        ) + resample::block_values(data, nodata, width, height, (b, c), cols),
    decreases c - b,
{
    let upper = resample::block_values(data, nodata, width, height, (a, b), cols);
    if b < c {
        a_block_is_its_rows(data, nodata, width, height, a, b, c - 1, cols);
        assert(resample::block_values(data, nodata, width, height, (a, c), cols) =~= upper
            + resample::block_values(data, nodata, width, height, (b, c), cols));
    } else {
        assert(upper + resample::block_values(data, nodata, width, height, (b, b), cols) =~= upper);
    }
}

/// The cells of a row of a block follow each other.
pub proof fn a_row_is_its_cells(
    data: Seq<Real>,
    nodata: Seq<bool>,
    width: int,
    height: int,
    r: int,
    a: int,
    b: int,
    c: int,
)
    requires
        a <= b <= c,
    ensures
        resample::block_values(data, nodata, width, height, (r, r + 1), (a, c))
            == resample::block_values(data, nodata, width, height, (r, r + 1), (a, b))
            + resample::block_values(data, nodata, width, height, (r, r + 1), (b, c)),
{
    row_splits(data, nodata, width, height, r, a, b, c);
    one_row(data, nodata, width, height, r, (a, c));
    one_row(data, nodata, width, height, r, (a, b));
    one_row(data, nodata, width, height, r, (b, c));
}

proof fn one_row(
    data: Seq<Real>,
    nodata: Seq<bool>,
    width: int,
    height: int,
    r: int,
    cols: (int, int),
)
    ensures
        resample::block_values(data, nodata, width, height, (r, r + 1), cols)
            == resample::row_values(data, nodata, width, height, r, cols.0, cols.1),
{
    assert(resample::block_values(data, nodata, width, height, (r, r), cols) =~= Seq::empty());
    assert(resample::block_values(data, nodata, width, height, (r, r + 1), cols)
        =~= resample::row_values(data, nodata, width, height, r, cols.0, cols.1));
}

proof fn row_splits(
    data: Seq<Real>,
    nodata: Seq<bool>,
    width: int,
    height: int,
    r: int,
    a: int,
    b: int,
    c: int,
)
    requires
        a <= b <= c,
    ensures
        resample::row_values(data, nodata, width, height, r, a, c) == resample::row_values(
            data,
            nodata,
            width,
            height,
            r,
            a,
            b,
        ) + resample::row_values(data, nodata, width, height, r, b, c),
    decreases c - b,
{
    let left = resample::row_values(data, nodata, width, height, r, a, b);
    if b < c {
        row_splits(data, nodata, width, height, r, a, b, c - 1);
        assert(resample::row_values(data, nodata, width, height, r, a, c) =~= left
            + resample::row_values(data, nodata, width, height, r, b, c));
    } else {
        assert(left + resample::row_values(data, nodata, width, height, r, b, b) =~= left);
    }
}

/// A block covers the cells from its start on, as many as its factor says,
/// that lie inside the raster.
pub proof fn a_block_covers_its_cells(start: int, factor: int, extent: int, i: int)
    requires
        0 <= factor,
        0 <= extent,
    ensures
        ({
            let span = resample::block_span(start, factor, extent);
            (span.0 <= i < span.1) == (start <= i < start + factor && 0 <= i < extent)
        }),
{
}

/// A cell of a coarser level is the mean of the values of its block, and has
/// none where the block has none.
pub proof fn a_coarser_cell_is_the_mean_of_its_block<M: Fn(Vec<Real>) -> Real>(
    m: M,
    data: Seq<Real>,
    nodata: Seq<bool>,
    width: int,
    height: int,
    factor: int,
    row: int,
    col: int,
    none: Real,
    r: Real,
)
    requires
        0 < factor,
        0 <= row,
        0 <= col,
        row + factor <= height,
        col + factor <= width,
        resample::is_thinned_cell(m, data, nodata, width, height, factor, (row, col), none, r),
    ensures
        ({
            let values = resample::block_values(
                data,
                nodata,
                width,
                height,
                (row, row + factor),
                (col, col + factor),
            );
            if values.len() == 0 {
                r == none
            } else {
                exists|v: Vec<Real>| v@ == values && #[trigger] m.ensures((v,), r)
            }
        }),
{
    let values = resample::block_values(
        data,
        nodata,
        width,
        height,
        (row, row + factor),
        (col, col + factor),
    );
    assert(resample::is_mean(m, values, none, r));
    if values.len() > 0 {
        let v = choose|v: Vec<Real>| #[trigger] resample::averages(m, values, v, r);
        assert(v@ == values && m.ensures((v,), r));
    }
}

// Mosaics and masks.

/// A pixel that no input has a value at has none.
pub proof fn no_input_no_value(samples: Seq<Vec<Option<Real>>>, p: int, from: int)
    requires
        0 <= from <= samples.len(),
        forall|j: int| from <= j < samples.len() ==> (#[trigger] samples[j])@[p] is None,
    ensures
        elements::first_sample(samples, p, from) is None,
    decreases samples.len() - from,
{
    if from < samples.len() {
        no_input_no_value(samples, p, from + 1);
    }
}

/// A mask keeps a pixel of a band exactly where the quality band has a value
/// that one of the codes equals and the band has one, and leaves no number
/// elsewhere.
pub proof fn a_mask_goes_by_its_quality_band(
    mask: QualityMask,
    bands: Seq<Band>,
    nodata: Seq<Vec<bool>>,
    b: int,
    p: int,
)
    requires
        0 <= b < bands.len(),
        mask.band < bands.len(),
        0 <= p < bands[b].data@.len(),
    ensures
        ({
            let out = elements::masked_band(mask, bands, nodata, b);
            let quality = bands[mask.band as int].data@[p];
            let good = !nodata[mask.band as int]@[p] && exists|i: int|
                0 <= i < mask.valid_values@.len() && !(#[trigger] mask.valid_values@[i]).nan()
                    && !quality.nan() && mask.valid_values@[i].place() == quality.place();
            &&& out.nodata.nan()
            &&& out.data.len() == bands[b].data@.len()
            &&& good && !nodata[b]@[p] ==> out.data[p] == bands[b].data@[p]
            &&& !good || nodata[b]@[p] ==> out.data[p].nan()
        }),
{
    let quality = bands[mask.band as int].data@[p];
    if elements::is_valid(mask.valid_values@, quality) {
        let i = choose|i: int|
            0 <= i < mask.valid_values@.len() && (#[trigger] mask.valid_values@[i]).equals(quality);
        assert(!mask.valid_values@[i].nan() && !quality.nan());
    }
    if exists|i: int|
        0 <= i < mask.valid_values@.len() && !(#[trigger] mask.valid_values@[i]).nan()
            && !quality.nan() && mask.valid_values@[i].place() == quality.place() {
        let i = choose|i: int|
            0 <= i < mask.valid_values@.len() && !(#[trigger] mask.valid_values@[i]).nan()
                && !quality.nan() && mask.valid_values@[i].place() == quality.place();
        assert(mask.valid_values@[i].equals(quality));
    }
}

// Images.

/// An image holds two bytes for each cell in order: its gray and how opaque
/// it is. A cell with a finite value has the gray that its value stretches
/// to and is opaque, any other is black and transparent.
pub proof fn an_image_shows_every_cell<F: Fn(Real) -> u8>(
    data: Seq<Real>,
    nodata: Seq<bool>,
    gray: F,
    n: int,
    i: int,
    g: u8,
)
    requires
        0 <= i < n <= data.len(),
        encode::is_stretch(gray),
    ensures
        ({
            let bytes = encode::gray_pixels(data, nodata, gray, n);
            &&& bytes.len() == 2 * n
            &&& nodata[i] || !data[i].finite() ==> bytes[2 * i] == 0 && bytes[2 * i + 1] == 0
            &&& !nodata[i] && data[i].finite() && gray.ensures((data[i],), g) ==> bytes[2 * i] == g
                && bytes[2 * i + 1] == 255
        }),
    decreases n,
{
    encode::transparency_marks_nodata(data, nodata, gray, n, i);
    if i < n - 1 {
        an_image_shows_every_cell(data, nodata, gray, n - 1, i, g);
    } else {
        encode::pixels_count(data, nodata, gray, n - 1);
        if gray.ensures((data[i],), g) {
            assert(gray.ensures((data[i],), encode::level(gray, data[i])));
        }
    }
}

} // verus!
