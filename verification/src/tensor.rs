//! Bands as channels and back, and a convolution over tensors, channel by
//! channel.

use vstd::prelude::*;

use crate::caps::{CapsPattern, CapsSet, Constraint, ConstraintModel, PatternModel, TensorModel, TensorPattern};
use crate::chunk::{Band, Placement, RasterChunk, TensorChunk};
use crate::chunk_ops;
use crate::elements::{ToRaster, ToTensor};
use crate::error::Error;
use crate::number::{Real, NAN_BITS};
use crate::seams;
use crate::seams::{Kernel, Part, Spot};
use crate::text;

verus! {

/// The bits of single precision's infinity.
pub const INFINITY_32: u32 = 0x7f800000;

/// The bits of a single-precision value that is no number.
pub const NAN_32: u32 = 0x7fc00000;

/// The bits of single precision's sign.
pub const SIGN_32: u32 = 0x80000000;

/// A single-precision pattern stands for no number.
pub open spec fn is_nan_32(bits: u32) -> bool {
    (if bits >= SIGN_32 {
        bits - SIGN_32
    } else {
        bits as int
    }) > INFINITY_32
}

fn nan_32(bits: u32) -> (r: bool)
    ensures
        r == is_nan_32(bits),
{
    if bits >= SIGN_32 {
        bits - SIGN_32 > INFINITY_32
    } else {
        bits > INFINITY_32
    }
}

/// A convolution with three rows of three taps, top to bottom. The taps are
/// single precision, by their bits.
#[derive(Debug)]
pub struct TensorConv {
    pub kernel: Vec<u32>,
}

/// The cell of a plane, no number off the plane.
pub open spec fn tap(plane: Seq<u32>, cols: int, rows: int, r: int, c: int) -> u32 {
    if 0 <= r < rows && 0 <= c < cols {
        plane[r * cols + c]
    } else {
        NAN_32
    }
}

/// What the arithmetic that is handed in makes of a sum, a value and a tap.
pub open spec fn mixed<F: Fn(u32, u32, u32) -> u32>(f: F, sum: u32, v: u32, k: u32) -> u32 {
    choose|r: u32| f.ensures((sum, v, k), r)
}

/// A sum can always be carried on, and always in one way.
pub open spec fn is_mixing<F: Fn(u32, u32, u32) -> u32>(f: F) -> bool {
    &&& forall|a: u32, b: u32, c: u32| #[trigger] f.requires((a, b, c))
    &&& forall|a: u32, b: u32, c: u32, r: u32, s: u32| #[trigger]
        f.ensures((a, b, c), r) && #[trigger] f.ensures((a, b, c), s) ==> r == s
}

/// The sum over the first `n` taps around a cell. A tap that falls on no
/// number, or off the plane, adds nothing.
pub open spec fn tap_sum<F: Fn(u32, u32, u32) -> u32>(
    f: F,
    kernel: Seq<u32>,
    plane: Seq<u32>,
    cols: int,
    rows: int,
    r: int,
    c: int,
    n: int,
) -> u32
    decreases n,
{
    if n <= 0 {
        0
    } else {
        let before = tap_sum(f, kernel, plane, cols, rows, r, c, n - 1);
        let v = tap(plane, cols, rows, r + (n - 1) / 3 - 1, c + (n - 1) % 3 - 1);
        if is_nan_32(v) {
            before
        } else {
            mixed(f, before, v, kernel[n - 1])
        }
    }
}

/// A convolved cell; one that is no number stays none.
pub open spec fn convolved_cell<F: Fn(u32, u32, u32) -> u32>(
    f: F,
    kernel: Seq<u32>,
    plane: Seq<u32>,
    cols: int,
    rows: int,
    r: int,
    c: int,
) -> u32 {
    if is_nan_32(tap(plane, cols, rows, r, c)) {
        NAN_32
    } else {
        tap_sum(f, kernel, plane, cols, rows, r, c, 9)
    }
}

/// Where a window lies in a plane, and how large both are.
#[derive(Clone, Copy, Debug, PartialEq, Eq, Structural)]
pub struct Offset {
    pub row0: i64,
    pub col0: i64,
    pub cols: usize,
    pub rows: usize,
}

impl Offset {
    /// Every cell of the window, and its neighbours, can be counted.
    pub open spec fn fits(self) -> bool {
        &&& self.row0 > i64::MIN + 1
        &&& self.col0 > i64::MIN + 1
        &&& self.row0 + self.rows < i64::MAX
        &&& self.col0 + self.cols < i64::MAX
        &&& self.rows <= i64::MAX
        &&& self.cols <= i64::MAX
        &&& self.cols * self.rows <= usize::MAX
    }
}

/// A window of a convolved plane.
pub open spec fn convolved_plane<F: Fn(u32, u32, u32) -> u32>(
    f: F,
    kernel: Seq<u32>,
    plane: Seq<u32>,
    cols: int,
    rows: int,
    at: Offset,
) -> Seq<u32> {
    Seq::new(
        (at.cols * at.rows) as nat,
        |p: int|
            convolved_cell(
                f,
                kernel,
                plane,
                cols,
                rows,
                at.row0 + p / (at.cols as int),
                at.col0 + p % (at.cols as int),
            ),
    )
}

/// The windows of the first `n` channels, convolved.
pub open spec fn convolved_channels<F: Fn(u32, u32, u32) -> u32>(
    f: F,
    kernel: Seq<u32>,
    data: Seq<u32>,
    cols: int,
    rows: int,
    at: Offset,
    n: int,
) -> Seq<u32>
    decreases n,
{
    if n <= 0 {
        Seq::empty()
    } else {
        convolved_channels(f, kernel, data, cols, rows, at, n - 1) + convolved_plane(
            f,
            kernel,
            chunk_ops::plane_of(data, n - 1, cols * rows),
            cols,
            rows,
            at,
        )
    }
}

fn read_tap(plane: &Vec<u32>, cols: usize, rows: usize, r: i64, c: i64) -> (v: u32)
    requires
        plane@.len() == cols * rows,
    ensures
        v == tap(plane@, cols as int, rows as int, r as int, c as int),
{
    if r < 0 || c < 0 || r as u64 >= rows as u64 || c as u64 >= cols as u64 {
        return NAN_32;
    }
    let row: usize = r as usize;
    let col: usize = c as usize;
    let len: usize = plane.len();
    proof {
        assert(0 <= row * cols && row * cols + col < len) by (nonlinear_arith)
            requires
                0 <= row < rows,
                0 <= col < cols,
                len == cols * rows,
        ;
    }
    plane[row * cols + col]
}

impl TensorConv {
    pub fn constraint(&self) -> (r: Constraint)
        ensures
            r@ == ConstraintModel::Identity(seq![PatternModel::Tensor(TensorModel::unbounded())]),
    {
        Constraint::Identity(CapsSet::one(CapsPattern::Tensor(TensorPattern::default())))
    }

    fn sum_taps<F: Fn(u32, u32, u32) -> u32>(
        &self,
        f: &F,
        plane: &Vec<u32>,
        cols: usize,
        rows: usize,
        r: i64,
        c: i64,
    ) -> (sum: u32)
        requires
            self.kernel@.len() == 9,
            plane@.len() == cols * rows,
            is_mixing(*f),
            i64::MIN < r < i64::MAX,
            i64::MIN < c < i64::MAX,
        ensures
            sum == tap_sum(
                *f,
                self.kernel@,
                plane@,
                cols as int,
                rows as int,
                r as int,
                c as int,
                9,
            ),
    {
        let mut sum: u32 = 0;
        for n in 0..9usize
            invariant
                self.kernel@.len() == 9,
                plane@.len() == cols * rows,
                is_mixing(*f),
                i64::MIN < r < i64::MAX,
                i64::MIN < c < i64::MAX,
                sum == tap_sum(
                    *f,
                    self.kernel@,
                    plane@,
                    cols as int,
                    rows as int,
                    r as int,
                    c as int,
                    n as int,
                ),
        {
            let dr: i64 = (n / 3) as i64 - 1;
            let dc: i64 = (n % 3) as i64 - 1;
            let v: u32 = read_tap(plane, cols, rows, r + dr, c + dc);
            if !nan_32(v) {
                let k: u32 = self.kernel[n];
                let next: u32 = f(sum, v, k);
                assert(f.ensures((sum, v, k), next));
                sum = next;
            }
        }
        sum
    }

    fn convolve_plane<F: Fn(u32, u32, u32) -> u32>(
        &self,
        f: &F,
        plane: &Vec<u32>,
        cols: usize,
        rows: usize,
        at: Offset,
    ) -> (r: Vec<u32>)
        requires
            self.kernel@.len() == 9,
            plane@.len() == cols * rows,
            is_mixing(*f),
            at.fits(),
        ensures
            r@ == convolved_plane(*f, self.kernel@, plane@, cols as int, rows as int, at),
    {
        let ghost whole = convolved_plane(*f, self.kernel@, plane@, cols as int, rows as int, at);
        let n: usize = at.cols * at.rows;
        let mut out: Vec<u32> = Vec::new();
        for p in 0..n
            invariant
                self.kernel@.len() == 9,
                plane@.len() == cols * rows,
                is_mixing(*f),
                at.fits(),
                n == at.cols * at.rows,
                whole == convolved_plane(
                    *f,
                    self.kernel@,
                    plane@,
                    cols as int,
                    rows as int,
                    at,
                ),
                out@ == whole.take(p as int),
        {
            let width: usize = at.cols;
            proof {
                assert(width > 0) by (nonlinear_arith)
                    requires
                        width * at.rows > p,
                        p >= 0,
                        width >= 0,
                ;
            }
            let row: usize = p / width;
            let col: usize = p % width;
            proof {
                vstd::arithmetic::div_mod::lemma_fundamental_div_mod(p as int, width as int);
                assert(row < at.rows) by (nonlinear_arith)
                    requires
                        p == width * row + col,
                        p < width * at.rows,
                        0 <= col,
                        width > 0,
                ;
            }
            let r: i64 = at.row0 + row as i64;
            let c: i64 = at.col0 + col as i64;
            let v: u32 = if nan_32(read_tap(plane, cols, rows, r, c)) {
                NAN_32
            } else {
                self.sum_taps(f, plane, cols, rows, r, c)
            };
            out.push(v);
            assert(out@ =~= whole.take(p + 1));
        }
        assert(out@ =~= whole);
        out
    }

    /// The window of a tensor, convolved; the arithmetic on a sum, a value
    /// and a tap is handed in.
    pub fn compute<F: Fn(u32, u32, u32) -> u32>(
        &self,
        f: &F,
        input: &TensorChunk,
        at: Offset,
        place: Placement,
    ) -> (r: TensorChunk)
        requires
            self.kernel@.len() == 9,
            input.data@.len() == input.channels * (input.width * input.height),
            is_mixing(*f),
            at.fits(),
        ensures
            r.channels == input.channels,
            r.width == at.cols,
            r.height == at.rows,
            r.place == place,
            r.data@ == convolved_channels(
                *f,
                self.kernel@,
                input.data@,
                input.width as int,
                input.height as int,
                at,
                input.channels as int,
            ),
    {
        let mut data: Vec<u32> = Vec::new();
        for n in 0..input.channels
            invariant
                self.kernel@.len() == 9,
                input.data@.len() == input.channels * (input.width * input.height),
                is_mixing(*f),
                at.fits(),
                data@ == convolved_channels(
                    *f,
                    self.kernel@,
                    input.data@,
                    input.width as int,
                    input.height as int,
                    at,
                    n as int,
                ),
        {
            proof {
                let size = input.width * input.height;
                assert((n + 1) * size <= input.channels * size) by (nonlinear_arith)
                    requires
                        n + 1 <= input.channels,
                        size >= 0,
                ;
                assert(n * size + size == (n + 1) * size) by (nonlinear_arith);
            }
            let plane = input.channel(n as usize);
            let mut more = self.convolve_plane(f, &plane, input.width, input.height, at);
            data.append(&mut more);
        }
        TensorChunk { channels: input.channels, width: at.cols, height: at.rows, data, place }
    }
}

/// A cell that is no number stays none, whatever is around it.
pub proof fn holes_stay<F: Fn(u32, u32, u32) -> u32>(
    f: F,
    kernel: Seq<u32>,
    plane: Seq<u32>,
    cols: int,
    rows: int,
    r: int,
    c: int,
)
    requires
        is_nan_32(tap(plane, cols, rows, r, c)),
    ensures
        is_nan_32(convolved_cell(f, kernel, plane, cols, rows, r, c)),
{
}

// Seams.

/// The convolution as a kernel on a plane.
pub open spec fn convolution<F: Fn(u32, u32, u32) -> u32>(f: F, kernel: Seq<u32>) -> Kernel<
    u32,
    u32,
> {
    |plane: Seq<u32>, cols: int, rows: int, r: int, c: int|
        convolved_cell(f, kernel, plane, cols, rows, r, c)
}

proof fn sums_agree<F: Fn(u32, u32, u32) -> u32>(
    f: F,
    kernel: Seq<u32>,
    a: Spot<u32>,
    b: Spot<u32>,
    n: int,
)
    requires
        seams::same_around(a, b, 1),
        n <= 9,
    ensures
        tap_sum(f, kernel, a.plane, a.cols, a.rows, a.r, a.c, n) == tap_sum(
            f,
            kernel,
            b.plane,
            b.cols,
            b.rows,
            b.r,
            b.c,
            n,
        ),
    decreases n,
{
    if n > 0 {
        sums_agree(f, kernel, a, b, n - 1);
        assert(seams::look_the_same(a, b, (n - 1) / 3 - 1, (n - 1) % 3 - 1));
    }
}

/// The convolution reads nothing beyond the next cell, so that its seams do
/// not show.
pub proof fn a_convolution_reads_the_next_cell<F: Fn(u32, u32, u32) -> u32>(
    f: F,
    kernel: Seq<u32>,
)
    ensures
        seams::reads_within(convolution(f, kernel), 1),
{
    let k = convolution(f, kernel);
    assert forall|a: Spot<u32>, b: Spot<u32>| #[trigger] seams::same_around(a, b, 1) implies k(
        a.plane,
        a.cols,
        a.rows,
        a.r,
        a.c,
    ) == k(b.plane, b.cols, b.rows, b.r, b.c) by {
        assert(seams::look_the_same(a, b, 0, 0));
        sums_agree(f, kernel, a, b, 9);
    }
}

/// Seams do not show: a window of a convolved plane can be computed from the
/// window widened by one cell.
pub proof fn seams_do_not_show<F: Fn(u32, u32, u32) -> u32>(
    f: F,
    kernel: Seq<u32>,
    plane: Seq<u32>,
    width: int,
    height: int,
    window: Part,
)
    requires
        window.lies_on(width, height),
    ensures
        ({
            let k = convolution(f, kernel);
            let wide = window.widened(width, height, 1);
            let inner = Part {
                col0: window.col0 - wide.col0,
                row0: window.row0 - wide.row0,
                ..window
            };
            inner.of(
                seams::applied(k, wide.of(plane, width), wide.cols, wide.rows),
                wide.cols,
            ) == window.of(seams::applied(k, plane, width, height), width)
        }),
{
    a_convolution_reads_the_next_cell(f, kernel);
    seams::a_widened_window_is_seam_free(
        convolution(f, kernel),
        plane,
        width,
        height,
        window,
        1,
    );
}

// Bands and channels.

/// The scaling that is handed in makes these elements of the cells of a
/// band.
pub open spec fn is_scaled<S: Fn(Real, u32, u32) -> u32>(
    s: S,
    cells: Seq<Real>,
    scale: u32,
    offset: u32,
    out: Seq<u32>,
) -> bool {
    &&& out.len() == cells.len()
    &&& forall|p: int|
        0 <= p < cells.len() ==> s.ensures((cells[p], scale, offset), #[trigger] out[p])
}

impl ToTensor {
    /// The bands of a raster as channels, each cell scaled and offset by the
    /// arithmetic that is handed in. The raster has a band per channel.
    pub fn compute<S: Fn(Real, u32, u32) -> u32>(&self, s: &S, input: &RasterChunk) -> (r: Result<
        TensorChunk,
        Error,
    >)
        requires
            input.wf(),
            input.bands@.len() == self.scales@.len() ==> self.scales@.len() <= self.offsets@.len(),
            forall|v: Real, a: u32, b: u32| #[trigger] s.requires((v, a, b)),
        ensures
            match r {
                Ok(t) => {
                    &&& input.bands@.len() == self.scales@.len()
                    &&& t.channels == self.channels()
                    &&& t.data@.len() == self.scales@.len() * (input.width * input.height)
                    &&& self.scales@.len() <= u16::MAX ==> t.wf()
                    &&& t.width == input.width
                    &&& t.height == input.height
                    &&& t.place == input.place
                    &&& forall|c: int|
                        0 <= c < self.scales@.len() ==> is_scaled(
                            *s,
                            (#[trigger] input.bands@[c]).data@,
                            self.scales@[c],
                            self.offsets@[c],
                            chunk_ops::plane_of(t.data@, c, input.width * input.height),
                        )
                },
                Err(e) => {
                    &&& input.bands@.len() != self.scales@.len()
                    &&& e matches Error::Source(m) && m@ == "to tensor: "@ + text::decimal(
                        input.bands@.len(),
                    ) + " bands into "@ + text::decimal(self.scales@.len()) + " channels"@
                },
            },
    {
        if let Err(e) = self.check_bands(input.bands.len()) {
            return Err(e);
        }
        let ghost size = input.width * input.height;
        let n: usize = self.scales.len();
        let mut data: Vec<u32> = Vec::new();
        assert(0 * size == 0);
        assert(size >= 0) by (nonlinear_arith)
            requires
                size == input.width * input.height,
        ;
        for c in 0..n
            invariant
                input.wf(),
                size == input.width * input.height,
                size >= 0,
                n == self.scales@.len(),
                n <= self.offsets@.len(),
                n == input.bands@.len(),
                forall|v: Real, a: u32, b: u32| #[trigger] s.requires((v, a, b)),
                data@.len() == c * size,
                forall|k: int|
                    0 <= k < c ==> is_scaled(
                        *s,
                        (#[trigger] input.bands@[k]).data@,
                        self.scales@[k],
                        self.offsets@[k],
                        chunk_ops::plane_of(data@, k, size),
                    ),
        {
            let band = &input.bands[c];
            assert(input.bands@[c as int].data@.len() == size);
            let ghost before = data@;
            for p in 0..band.data.len()
                invariant
                    c < n,
                    n == self.scales@.len(),
                    n <= self.offsets@.len(),
                    forall|v: Real, a: u32, b: u32| #[trigger] s.requires((v, a, b)),
                    data@.len() == before.len() + p,
                    data@.take(before.len() as int) == before,
                    forall|q: int|
                        0 <= q < p ==> s.ensures(
                            (band.data@[q], self.scales@[c as int], self.offsets@[c as int]),
                            #[trigger] data@[before.len() + q],
                        ),
            {
                let ghost so_far = data@;
                data.push(s(band.data[p], self.scales[c], self.offsets[c]));
                proof {
                    assert(data@.take(before.len() as int) =~= so_far.take(before.len() as int));
                    assert forall|q: int| 0 <= q < p + 1 implies s.ensures(
                        (band.data@[q], self.scales@[c as int], self.offsets@[c as int]),
                        #[trigger] data@[before.len() + q],
                    ) by {
                        if q < p {
                            assert(data@[before.len() + q] == so_far[before.len() + q]);
                        }
                    }
                }
            }
            proof {
                assert(c * size + size == (c + 1) * size) by (nonlinear_arith);
                assert forall|k: int| 0 <= k < c + 1 implies is_scaled(
                    *s,
                    (#[trigger] input.bands@[k]).data@,
                    self.scales@[k],
                    self.offsets@[k],
                    chunk_ops::plane_of(data@, k, size),
                ) by {
                    assert(input.bands@[k].data@.len() == size);
                    let plane = chunk_ops::plane_of(data@, k, size);
                    if k < c {
                        chunk_ops::channels_fit(k, c as int, size);
                        assert forall|i: int| 0 <= i < before.len() implies #[trigger] data@[i]
                            == before[i] by {
                            assert(data@.take(before.len() as int)[i] == data@[i]);
                        }
                        assert(plane =~= chunk_ops::plane_of(before, k, size));
                    } else {
                        assert forall|q: int| 0 <= q < size implies s.ensures(
                            (band.data@[q], self.scales@[k], self.offsets@[k]),
                            #[trigger] plane[q],
                        ) by {
                            assert(plane[q] == data@[before.len() + q]);
                        }
                    }
                }
            }
        }
        let width: usize = input.width;
        let height: usize = input.height;
        Ok(TensorChunk { channels: self.channel_count(), width, height, data, place: input.place })
    }
}

impl ToRaster {
    /// The channels of a tensor as bands, each element widened by the
    /// arithmetic that is handed in.
    pub fn compute<W: Fn(u32) -> Real>(&self, w: &W, input: &TensorChunk) -> (r: RasterChunk)
        requires
            input.wf(),
            forall|v: u32| #[trigger] w.requires((v,)),
        ensures
            r.wf(),
            r.width == input.width,
            r.height == input.height,
            r.place == input.place,
            r.bands@.len() == input.channels,
            forall|c: int|
                0 <= c < input.channels ==> (#[trigger] r.bands@[c]).nodata.bits == NAN_BITS,
            forall|c: int, p: int|
                0 <= c < input.channels && 0 <= p < input.width * input.height ==> w.ensures(
                    (chunk_ops::plane_of(input.data@, c, input.width * input.height)[p],),
                    #[trigger] r.bands@[c].data@[p],
                ),
    {
        let n: usize = input.channels as usize;
        let ghost size = input.width * input.height;
        let mut bands: Vec<Band> = Vec::new();
        for c in 0..n
            invariant
                input.wf(),
                n == input.channels,
                size == input.width * input.height,
                forall|v: u32| #[trigger] w.requires((v,)),
                bands@.len() == c,
                forall|k: int|
                    0 <= k < c ==> (#[trigger] bands@[k]).nodata.bits == NAN_BITS
                        && bands@[k].data@.len() == size,
                forall|k: int, p: int|
                    0 <= k < c && 0 <= p < size ==> w.ensures(
                        (chunk_ops::plane_of(input.data@, k, size)[p],),
                        #[trigger] bands@[k].data@[p],
                    ),
        {
            let plane = input.channel(c);
            proof {
                assert(size >= 0) by (nonlinear_arith)
                    requires
                        size == input.width * input.height,
                ;
                chunk_ops::channels_fit(c as int, n as int, size);
                assert(plane@.len() == size);
            }
            let mut data: Vec<Real> = Vec::new();
            for p in 0..plane.len()
                invariant
                    forall|v: u32| #[trigger] w.requires((v,)),
                    data@.len() == p,
                    forall|q: int|
                        0 <= q < p ==> w.ensures((plane@[q],), #[trigger] data@[q]),
            {
                data.push(w(plane[p]));
            }
            let ghost before = bands@;
            bands.push(Band { nodata: Real::not_a_number(), data });
            assert forall|k: int, p: int| 0 <= k < c + 1 && 0 <= p < size implies w.ensures(
                (chunk_ops::plane_of(input.data@, k, size)[p],),
                #[trigger] bands@[k].data@[p],
            ) by {
                if k < c {
                    assert(bands@[k] == before[k]);
                    assert(w.ensures(
                        (chunk_ops::plane_of(input.data@, k, size)[p],),
                        before[k].data@[p],
                    ));
                }
            }
        }
        RasterChunk { width: input.width, height: input.height, bands, place: input.place }
    }
}

} // verus!
