//! The elements of a graph: what each demands and offers, and what it does
//! to pixels where that is no arithmetic.

use vstd::prelude::*;

use crate::caps;
use crate::caps::{
    AreaModel, CapsPattern, CapsSet, Constraint, ConstraintModel, Crs, Dtype, FieldMask,
    FieldModel, PatternModel, PointPattern, RasterModel, RasterPattern, ResRange, SetField,
    TensorDtype, TensorModel, TensorPattern, VectorPattern,
};
use crate::chunk;
use crate::chunk::{Band, BandModel};
use crate::config::BinaryOpConfig;
use crate::error::Error;
use crate::formula;
use crate::formula::BandMath;
use crate::number;
use crate::number::Real;
use crate::text;
use crate::vec_ops::Rasterize;
use crate::window::{Bbox, GridSpec};

verus! {

/// The tile side of every source, in pixels.
pub const SOURCE_CHUNK_PX: u32 = 256;

// Sources.

/// What a raster source offers.
pub open spec fn raster_offer(bands: u16, crs: Crs, finest: Real) -> ConstraintModel {
    ConstraintModel::Produces(
        seq![
            PatternModel::Raster(
                RasterModel {
                    dtype: FieldModel::OneOf(seq![Dtype::F64]),
                    bands: FieldModel::OneOf(seq![bands]),
                    crs: FieldModel::OneOf(seq![crs]),
                    resolution: ResRange { min: finest, max: Real { bits: number::INFINITY_BITS } },
                    chunk_px: FieldModel::Any,
                },
            ),
        ],
    )
}

/// The constraint of a raster source: its bands on its reference system, at
/// its own resolution or coarser.
pub fn raster_source(bands: u16, crs: Crs, finest: Real) -> (r: Constraint)
    ensures
        r@ == raster_offer(bands, crs, finest),
{
    Constraint::Produces(
        CapsSet::one(
            CapsPattern::Raster(
                RasterPattern {
                    dtype: SetField::one(Dtype::F64),
                    bands: SetField::one(bands),
                    crs: SetField::one(crs),
                    resolution: ResRange::at_least(finest),
                    chunk_px: SetField::Any,
                },
            ),
        ),
    )
}

/// What a source of points or features offers.
pub open spec fn area_offer(crs: Crs, finest: Real) -> AreaModel {
    AreaModel {
        crs: FieldModel::OneOf(seq![crs]),
        resolution: ResRange { min: finest, max: Real { bits: number::INFINITY_BITS } },
        chunk_px: FieldModel::Any,
    }
}

/// The constraint of a point cloud source.
pub fn point_source(crs: Crs, finest: Real) -> (r: Constraint)
    ensures
        r@ == ConstraintModel::Produces(seq![PatternModel::PointCloud(area_offer(crs, finest))]),
{
    Constraint::Produces(
        CapsSet::one(
            CapsPattern::PointCloud(
                PointPattern {
                    crs: SetField::one(crs),
                    resolution: ResRange::at_least(finest),
                    chunk_px: SetField::Any,
                },
            ),
        ),
    )
}

/// The constraint of a feature source.
pub fn vector_source(crs: Crs, finest: Real) -> (r: Constraint)
    ensures
        r@ == ConstraintModel::Produces(seq![PatternModel::Vector(area_offer(crs, finest))]),
{
    Constraint::Produces(
        CapsSet::one(
            CapsPattern::Vector(
                VectorPattern {
                    crs: SetField::one(crs),
                    resolution: ResRange::at_least(finest),
                    chunk_px: SetField::Any,
                },
            ),
        ),
    )
}

/// The grid of a source.
pub fn source_grid(origin_x: Real, origin_y: Real, base_resolution: Real) -> (r: GridSpec)
    ensures
        r == (GridSpec { origin_x, origin_y, base_resolution, chunk_px: SOURCE_CHUNK_PX }),
{
    GridSpec { origin_x, origin_y, base_resolution, chunk_px: SOURCE_CHUNK_PX }
}

// Elements that keep their input's caps.

/// Any raster passes.
pub open spec fn any_raster_passes() -> ConstraintModel {
    ConstraintModel::Identity(seq![PatternModel::Raster(RasterModel::unbounded())])
}

/// A raster with so many bands, or as many at least, passes.
pub open spec fn banded_passes(bands: FieldModel<u16>) -> ConstraintModel {
    ConstraintModel::Identity(
        seq![PatternModel::Raster(RasterModel { bands, ..RasterModel::unbounded() })],
    )
}

fn banded(bands: SetField<u16>) -> (r: Constraint)
    ensures
        r@ == banded_passes(bands@),
{
    Constraint::Identity(
        CapsSet::one(
            CapsPattern::Raster(
                RasterPattern {
                    dtype: SetField::Any,
                    bands,
                    crs: SetField::Any,
                    resolution: ResRange::any(),
                    chunk_px: SetField::Any,
                },
            ),
        ),
    )
}

/// The first input with a value wins each pixel.
#[derive(Clone, Copy, Debug)]
pub struct Mosaic;

/// A sample of the first input that has one, from the `k`-th on.
pub open spec fn first_sample(samples: Seq<Vec<Option<Real>>>, p: int, k: int) -> Option<Real>
    decreases samples.len() - k,
{
    if k >= samples.len() {
        None
    } else if samples[k]@[p] is Some {
        samples[k]@[p]
    } else {
        first_sample(samples, p, k + 1)
    }
}

impl Mosaic {
    pub fn constraint(&self) -> (r: Constraint)
        ensures
            r@ == any_raster_passes(),
    {
        Constraint::Identity(CapsSet::any_raster())
    }

    /// A band out of the inputs' samples at each pixel, in wiring order.
    pub fn compute(&self, samples: &Vec<Vec<Option<Real>>>, nodata: Real, cells: usize) -> (r: Vec<
        Real,
    >)
        requires
            forall|k: int| 0 <= k < samples@.len() ==> (#[trigger] samples@[k])@.len() == cells,
        ensures
            r@ == Seq::new(
                cells as nat,
                |p: int|
                    match first_sample(samples@, p, 0) {
                        Some(v) => v,
                        None => nodata,
                    },
            ),
    {
        let mut out: Vec<Real> = Vec::new();
        for p in 0..cells
            invariant
                forall|k: int| 0 <= k < samples@.len() ==> (#[trigger] samples@[k])@.len() == cells,
                out@ == Seq::new(
                    p as nat,
                    |q: int|
                        match first_sample(samples@, q, 0) {
                            Some(v) => v,
                            None => nodata,
                        },
                ),
        {
            let mut k: usize = 0;
            let mut found: Option<Real> = None;
            while k < samples.len() && found.is_none()
                invariant
                    p < cells,
                    k <= samples@.len(),
                    forall|k: int|
                        0 <= k < samples@.len() ==> (#[trigger] samples@[k])@.len() == cells,
                    found is None ==> first_sample(samples@, p as int, 0) == first_sample(
                        samples@,
                        p as int,
                        k as int,
                    ),
                    found is Some ==> first_sample(samples@, p as int, 0) == found,
                decreases samples@.len() - k,
            {
                found = samples[k][p];
                k = k + 1;
            }
            let v = match found {
                Some(v) => v,
                None => nodata,
            };
            out.push(v);
            assert(out@ =~= Seq::new(
                (p + 1) as nat,
                |q: int|
                    match first_sample(samples@, q, 0) {
                        Some(v) => v,
                        None => nodata,
                    },
            ));
        }
        out
    }
}

/// A pixel takes the first input that has a value there.
pub proof fn the_first_input_wins(samples: Seq<Vec<Option<Real>>>, p: int, k: int)
    requires
        0 <= k < samples.len(),
        samples[k]@[p] is Some,
        forall|j: int| 0 <= j < k ==> (#[trigger] samples[j])@[p] is None,
    ensures
        first_sample(samples, p, 0) == samples[k]@[p],
{
    skips_to(samples, p, 0, k);
}

proof fn skips_to(samples: Seq<Vec<Option<Real>>>, p: int, from: int, k: int)
    requires
        0 <= from <= k < samples.len(),
        samples[k]@[p] is Some,
        forall|j: int| 0 <= j < k ==> (#[trigger] samples[j])@[p] is None,
    ensures
        first_sample(samples, p, from) == samples[k]@[p],
    decreases k - from,
{
    if from < k {
        assert(samples[from]@[p] is None);
        skips_to(samples, p, from + 1, k);
    }
}

/// Two inputs joined cell by cell.
#[derive(Clone, Copy, Debug)]
pub struct Combine {
    pub op: BinaryOpConfig,
}

impl Combine {
    pub fn new(op: BinaryOpConfig) -> (r: Combine)
        ensures
            r.op == op,
    {
        Combine { op }
    }

    pub fn constraint(&self) -> (r: Constraint)
        ensures
            r@ == any_raster_passes(),
    {
        Constraint::Identity(CapsSet::any_raster())
    }

    /// Whether so many inputs can be joined.
    pub fn configure(&self, inputs: usize) -> (r: Result<(), Error>)
        ensures
            inputs == 2 ==> r is Ok,
            inputs != 2 ==> (r matches Err(Error::InvalidGraph(m)) && m@
                == "combine needs exactly two inputs, wired with "@ + text::decimal(
                inputs as nat,
            )),
    {
        if inputs == 2 {
            Ok(())
        } else {
            Err(
                Error::InvalidGraph(
                    text::joined(
                        "combine needs exactly two inputs, wired with ",
                        text::decimal_text(inputs as u64).as_str(),
                    ),
                ),
            )
        }
    }
}

/// The statistic of a focal window.
#[derive(Clone, Copy, Debug, PartialEq, Eq, Structural)]
pub enum FocalOp {
    Mean,
    Median,
    Min,
    Max,
}

/// A statistic of the square of side `2 * radius + 1` around each pixel.
#[derive(Clone, Copy, Debug)]
pub struct Focal {
    pub op: FocalOp,
    pub radius: u32,
}

impl Focal {
    pub fn new(op: FocalOp, radius: u32) -> (r: Focal)
        ensures
            r.op == op,
            r.radius == radius,
    {
        Focal { op, radius }
    }

    pub fn constraint(&self) -> (r: Constraint)
        ensures
            r@ == any_raster_passes(),
    {
        Constraint::Identity(CapsSet::any_raster())
    }
}

/// The halo of a terrain kernel, in cells.
pub const TERRAIN_HALO_CELLS: u32 = 2;

#[derive(Clone, Copy, Debug)]
pub struct Hillshade {
    pub azimuth: Real,
    pub altitude: Real,
}

impl Hillshade {
    pub fn new(azimuth: Real, altitude: Real) -> (r: Hillshade)
        ensures
            r.azimuth == azimuth,
            r.altitude == altitude,
    {
        Hillshade { azimuth, altitude }
    }

    pub fn constraint(&self) -> (r: Constraint)
        ensures
            r@ == banded_passes(FieldModel::OneOf(seq![1u16])),
    {
        banded(SetField::one(1))
    }
}

#[derive(Clone, Copy, Debug)]
pub struct Slope;

impl Slope {
    pub fn constraint(&self) -> (r: Constraint)
        ensures
            r@ == banded_passes(FieldModel::OneOf(seq![1u16])),
    {
        banded(SetField::one(1))
    }
}

#[derive(Clone, Copy, Debug)]
pub struct Aspect;

impl Aspect {
    pub fn constraint(&self) -> (r: Constraint)
        ensures
            r@ == banded_passes(FieldModel::OneOf(seq![1u16])),
    {
        banded(SetField::one(1))
    }
}

/// Keeps the pixels whose quality band holds one of a list of codes.
#[derive(Debug)]
pub struct QualityMask {
    pub band: usize,
    pub valid_values: Vec<Real>,
}

/// One of the codes equals a value.
pub open spec fn is_valid(codes: Seq<Real>, v: Real) -> bool {
    exists|i: int| 0 <= i < codes.len() && (#[trigger] codes[i]).equals(v)
}

/// A pixel that a mask keeps.
pub open spec fn is_kept(mask: QualityMask, bands: Seq<Band>, nodata: Seq<Vec<bool>>, p: int) -> bool {
    !nodata[mask.band as int]@[p] && is_valid(
        mask.valid_values@,
        bands[mask.band as int].data@[p],
    )
}

/// A band under a mask: what is not kept, or had no value, has none.
pub open spec fn masked_band(
    mask: QualityMask,
    bands: Seq<Band>,
    nodata: Seq<Vec<bool>>,
    b: int,
) -> BandModel {
    BandModel {
        nodata: Real { bits: number::NAN_BITS },
        data: Seq::new(
            bands[b].data@.len(),
            |p: int|
                if is_kept(mask, bands, nodata, p) && !nodata[b]@[p] {
                    bands[b].data@[p]
                } else {
                    Real { bits: number::NAN_BITS }
                },
        ),
    }
}

/// Every band has as many pixels, and a flag for each.
pub open spec fn flagged(bands: Seq<Band>, nodata: Seq<Vec<bool>>, cells: int) -> bool {
    &&& nodata.len() == bands.len()
    &&& forall|b: int| #![trigger bands[b]] #![trigger nodata[b]]
        0 <= b < bands.len() ==> bands[b].data@.len() == cells && nodata[b]@.len() == cells
}

impl QualityMask {
    pub fn new(band: usize, valid_values: Vec<Real>) -> (r: QualityMask)
        ensures
            r.band == band,
            r.valid_values == valid_values,
    {
        QualityMask { band, valid_values }
    }

    /// A link has to carry the quality band. An index past what a count can
    /// say demands the largest count there is.
    pub fn constraint(&self) -> (r: Constraint)
        ensures
            r@ == banded_passes(
                FieldModel::AtLeast(
                    if self.band < 0xffff {
                        (self.band + 1) as u16
                    } else {
                        0xffffu16
                    },
                ),
            ),
    {
        let least: u16 = if self.band < 0xffff {
            (self.band + 1) as u16
        } else {
            0xffff
        };
        banded(SetField::AtLeast(least))
    }

    fn valid(&self, v: Real) -> (r: bool)
        ensures
            r == is_valid(self.valid_values@, v),
    {
        for i in 0..self.valid_values.len()
            invariant
                forall|k: int| 0 <= k < i ==> !(#[trigger] self.valid_values@[k]).equals(v),
        {
            if self.valid_values[i].eq_num(v) {
                return true;
            }
        }
        false
    }

    /// The bands under the mask; `nodata` says which pixels of each band
    /// have no value.
    pub fn compute(&self, bands: &Vec<Band>, nodata: &Vec<Vec<bool>>, cells: usize) -> (r: Vec<Band>)
        requires
            self.band < bands@.len(),
            flagged(bands@, nodata@, cells as int),
        ensures
            chunk::bands_model(r@) == Seq::new(
                bands@.len(),
                |b: int| masked_band(*self, bands@, nodata@, b),
            ),
    {
        let mut keep: Vec<bool> = Vec::new();
        for p in 0..cells
            invariant
                self.band < bands@.len(),
                flagged(bands@, nodata@, cells as int),
                keep@.len() == p,
                forall|q: int|
                    0 <= q < p ==> #[trigger] keep@[q] == is_kept(*self, bands@, nodata@, q),
        {
            assert(bands@[self.band as int].data@.len() == cells);
            let hit: bool = !nodata[self.band][p] && self.valid(bands[self.band].data[p]);
            keep.push(hit);
        }
        let mut out: Vec<Band> = Vec::new();
        for b in 0..bands.len()
            invariant
                flagged(bands@, nodata@, cells as int),
                keep@.len() == cells,
                forall|q: int|
                    0 <= q < cells ==> #[trigger] keep@[q] == is_kept(*self, bands@, nodata@, q),
                out@.len() == b,
                forall|i: int|
                    0 <= i < b ==> (#[trigger] out@[i])@ == masked_band(
                        *self,
                        bands@,
                        nodata@,
                        i,
                    ),
        {
            let band = &bands[b];
            assert(bands@[b as int].data@.len() == cells && nodata@[b as int]@.len() == cells);
            let ghost whole = masked_band(*self, bands@, nodata@, b as int).data;
            let mut data: Vec<Real> = Vec::new();
            for p in 0..cells
                invariant
                    b < bands@.len(),
                    *band == bands@[b as int],
                    nodata@.len() == bands@.len(),
                    band.data@.len() == cells,
                    nodata@[b as int]@.len() == cells,
                    keep@.len() == cells,
                    forall|q: int|
                        0 <= q < cells ==> #[trigger] keep@[q] == is_kept(
                            *self,
                            bands@,
                            nodata@,
                            q,
                        ),
                    whole == masked_band(*self, bands@, nodata@, b as int).data,
                    data@ == whole.take(p as int),
            {
                let v = if keep[p] && !nodata[b][p] {
                    band.data[p]
                } else {
                    Real::not_a_number()
                };
                data.push(v);
                assert(data@ =~= whole.take(p + 1));
            }
            assert(data@ =~= whole);
            let masked = Band { nodata: Real::not_a_number(), data };
            assert(masked@ =~= masked_band(*self, bands@, nodata@, b as int));
            out.push(masked);
        }
        assert(chunk::bands_model(out@) =~= Seq::new(
            bands@.len(),
            |b: int| masked_band(*self, bands@, nodata@, b),
        ));
        out
    }
}

/// A pixel that a mask does not keep has no value in any band, the quality
/// band included.
pub proof fn masked_pixels_have_no_value(
    mask: QualityMask,
    bands: Seq<Band>,
    nodata: Seq<Vec<bool>>,
    b: int,
    p: int,
)
    requires
        0 <= b < bands.len(),
        0 <= p < bands[b].data@.len(),
        !is_kept(mask, bands, nodata, p),
    ensures
        masked_band(mask, bands, nodata, b).data[p].nan(),
{
}

/// Any features pass.
pub fn vector_identity() -> (r: Constraint)
    ensures
        r@ == ConstraintModel::Identity(seq![PatternModel::Vector(AreaModel::unbounded())]),
{
    Constraint::Identity(CapsSet::any_vector())
}

// Elements that change the kind or the bands.

/// The reference system and the tile size pass, nothing else.
pub open spec fn place_passes() -> FieldMask {
    FieldMask { dtype: false, bands: false, crs: true, resolution: false, chunk_px: true }
}

/// One band of doubles.
pub open spec fn single_band() -> PatternModel {
    PatternModel::Raster(
        RasterModel {
            dtype: FieldModel::OneOf(seq![Dtype::F64]),
            bands: FieldModel::OneOf(seq![1u16]),
            ..RasterModel::unbounded()
        },
    )
}

fn one_band() -> (r: CapsPattern)
    ensures
        r@ == single_band(),
{
    CapsPattern::Raster(
        RasterPattern {
            dtype: SetField::one(Dtype::F64),
            bands: SetField::one(1),
            crs: SetField::Any,
            resolution: ResRange::any(),
            chunk_px: SetField::Any,
        },
    )
}

impl Rasterize {
    pub fn constraint(&self) -> (r: Constraint)
        ensures
            r@ == (ConstraintModel::Derived {
                input: seq![PatternModel::Vector(AreaModel::unbounded())],
                passthrough: place_passes(),
                output: single_band(),
            }),
    {
        Constraint::Derived {
            input: CapsSet::any_vector(),
            passthrough: FieldMask {
                dtype: false,
                bands: false,
                crs: true,
                resolution: false,
                chunk_px: true,
            },
            output: one_band(),
        }
    }
}

/// Points gridded by inverse distance. The radius is in output pixels.
#[derive(Clone, Copy, Debug)]
pub struct IdwGrid {
    pub power: Real,
    pub radius_px: Real,
    pub min_points: usize,
}

impl Default for IdwGrid {
    fn default() -> (r: Self)
        ensures
            r.power == (Real { bits: 0x4000000000000000 }),
            r.radius_px == (Real { bits: 0x4010000000000000 }),
            r.min_points == 1,
    {
        IdwGrid {
            power: Real { bits: 0x4000000000000000 },
            radius_px: Real { bits: 0x4010000000000000 },
            min_points: 1,
        }
    }
}

impl IdwGrid {
    pub fn constraint(&self) -> (r: Constraint)
        ensures
            r@ == (ConstraintModel::Derived {
                input: seq![PatternModel::PointCloud(AreaModel::unbounded())],
                passthrough: place_passes(),
                output: single_band(),
            }),
    {
        Constraint::Derived {
            input: CapsSet::one(CapsPattern::PointCloud(PointPattern::default())),
            passthrough: FieldMask {
                dtype: false,
                bands: false,
                crs: true,
                resolution: false,
                chunk_px: true,
            },
            output: one_band(),
        }
    }
}

impl BandMath {
    /// An input of as many bands as the expression needs, one band out.
    pub fn constraint(&self) -> (r: Constraint)
        ensures
            r@ == (ConstraintModel::Derived {
                input: seq![
                    PatternModel::Raster(
                        RasterModel {
                            bands: FieldModel::AtLeast(
                                if formula::bands_needed(self.root) <= u16::MAX {
                                    formula::bands_needed(self.root) as u16
                                } else {
                                    u16::MAX
                                },
                            ),
                            ..RasterModel::unbounded()
                        },
                    ),
                ],
                passthrough: FieldMask {
                    dtype: false,
                    bands: false,
                    crs: true,
                    resolution: true,
                    chunk_px: true,
                },
                output: single_band(),
            }),
    {
        Constraint::Derived {
            input: CapsSet::one(
                CapsPattern::Raster(
                    RasterPattern {
                        dtype: SetField::Any,
                        bands: SetField::AtLeast(self.bands()),
                        crs: SetField::Any,
                        resolution: ResRange::any(),
                        chunk_px: SetField::Any,
                    },
                ),
            ),
            passthrough: FieldMask {
                dtype: false,
                bands: false,
                crs: true,
                resolution: true,
                chunk_px: true,
            },
            output: one_band(),
        }
    }
}

/// What passes between rasters and tensors: the reference system, the tile
/// size and the plane count.
pub fn cross_kind_passthrough() -> (r: FieldMask)
    ensures
        r == (FieldMask {
            dtype: false,
            bands: true,
            crs: true,
            resolution: false,
            chunk_px: true,
        }),
{
    FieldMask { dtype: false, bands: true, crs: true, resolution: false, chunk_px: true }
}

/// Bands to channels, each scaled and offset. Both lists are single
/// precision, by their bits.
#[derive(Debug)]
pub struct ToTensor {
    pub scales: Vec<u32>,
    pub offsets: Vec<u32>,
}

impl ToTensor {
    /// How many channels come out: the scales, as far as a channel count can
    /// say, beginning again at zero past that.
    pub open spec fn channels(&self) -> u16 {
        (self.scales@.len() % 65536) as u16
    }

    pub fn channel_count(&self) -> (r: u16)
        ensures
            r == self.channels(),
    {
        (self.scales.len() % 65536) as u16
    }

    pub fn constraint(&self) -> (r: Constraint)
        ensures
            r@ == (ConstraintModel::Derived {
                input: seq![PatternModel::Raster(RasterModel::unbounded())],
                passthrough: FieldMask {
                    dtype: false,
                    bands: true,
                    crs: true,
                    resolution: false,
                    chunk_px: true,
                },
                output: PatternModel::Tensor(
                    TensorModel {
                        dtype: FieldModel::OneOf(seq![TensorDtype::F32]),
                        channels: FieldModel::OneOf(seq![self.channels()]),
                        ..TensorModel::unbounded()
                    },
                ),
            }),
    {
        Constraint::Derived {
            input: CapsSet::any_raster(),
            passthrough: cross_kind_passthrough(),
            output: CapsPattern::Tensor(
                TensorPattern {
                    dtype: SetField::one(TensorDtype::F32),
                    channels: SetField::one(self.channel_count()),
                    crs: SetField::Any,
                    resolution: ResRange::any(),
                    chunk_px: SetField::Any,
                },
            ),
        }
    }

    /// Whether every scale has an offset.
    pub fn configure(&self) -> (r: Result<(), Error>)
        ensures
            self.scales@.len() == self.offsets@.len() ==> r is Ok,
            self.scales@.len() != self.offsets@.len() ==> (r matches Err(Error::Source(m)) && m@
                == "to tensor: "@ + text::decimal(self.scales@.len()) + " scales against "@
                + text::decimal(self.offsets@.len()) + " offsets"@),
    {
        if self.scales.len() == self.offsets.len() {
            return Ok(());
        }
        let mut m = text::joined(
            "to tensor: ",
            text::decimal_text(self.scales.len() as u64).as_str(),
        );
        m.append(" scales against ");
        m.append(text::decimal_text(self.offsets.len() as u64).as_str());
        m.append(" offsets");
        Err(Error::Source(m))
    }

    /// Whether an input has a band per channel.
    pub fn check_bands(&self, bands: usize) -> (r: Result<(), Error>)
        ensures
            bands == self.scales@.len() ==> r is Ok,
            bands != self.scales@.len() ==> (r matches Err(Error::Source(m)) && m@
                == "to tensor: "@ + text::decimal(bands as nat) + " bands into "@ + text::decimal(
                self.scales@.len(),
            ) + " channels"@),
    {
        if bands == self.scales.len() {
            return Ok(());
        }
        let mut m = text::joined("to tensor: ", text::decimal_text(bands as u64).as_str());
        m.append(" bands into ");
        m.append(text::decimal_text(self.scales.len() as u64).as_str());
        m.append(" channels");
        Err(Error::Source(m))
    }
}

/// Channels back to bands.
#[derive(Clone, Copy, Debug)]
pub struct ToRaster;

impl ToRaster {
    pub fn constraint(&self) -> (r: Constraint)
        ensures
            r@ == (ConstraintModel::Derived {
                input: seq![PatternModel::Tensor(TensorModel::unbounded())],
                passthrough: FieldMask {
                    dtype: false,
                    bands: true,
                    crs: true,
                    resolution: false,
                    chunk_px: true,
                },
                output: PatternModel::Raster(
                    RasterModel {
                        dtype: FieldModel::OneOf(seq![Dtype::F64]),
                        ..RasterModel::unbounded()
                    },
                ),
            }),
    {
        Constraint::Derived {
            input: CapsSet::one(CapsPattern::Tensor(TensorPattern::default())),
            passthrough: cross_kind_passthrough(),
            output: CapsPattern::Raster(
                RasterPattern {
                    dtype: SetField::one(Dtype::F64),
                    bands: SetField::Any,
                    crs: SetField::Any,
                    resolution: ResRange::any(),
                    chunk_px: SetField::Any,
                },
            ),
        }
    }
}

// Reprojection.

/// A raster on another reference system.
#[derive(Clone, Copy, Debug)]
pub struct Reproject {
    pub to: Crs,
}

/// Features on another reference system.
#[derive(Clone, Copy, Debug)]
pub struct VecReproject {
    pub to: Crs,
}

/// Everything but the reference system and the resolution passes.
pub open spec fn content_passes() -> FieldMask {
    FieldMask { dtype: true, bands: true, crs: false, resolution: false, chunk_px: true }
}

/// A raster reprojection to what a field allows.
pub open spec fn raster_reprojection(crs: FieldModel<Crs>) -> ConstraintModel {
    ConstraintModel::Derived {
        input: seq![PatternModel::Raster(RasterModel::unbounded())],
        passthrough: content_passes(),
        output: PatternModel::Raster(RasterModel { crs, ..RasterModel::unbounded() }),
    }
}

/// A feature reprojection to what a field allows.
pub open spec fn vector_reprojection(crs: FieldModel<Crs>) -> ConstraintModel {
    ConstraintModel::Derived {
        input: seq![PatternModel::Vector(AreaModel::unbounded())],
        passthrough: content_passes(),
        output: PatternModel::Vector(AreaModel { crs, ..AreaModel::unbounded() }),
    }
}

fn raster_onto(crs: SetField<Crs>) -> (r: Constraint)
    ensures
        r@ == raster_reprojection(crs@),
{
    Constraint::Derived {
        input: CapsSet::any_raster(),
        passthrough: FieldMask::without_crs_resolution(),
        output: CapsPattern::Raster(
            RasterPattern {
                dtype: SetField::Any,
                bands: SetField::Any,
                crs,
                resolution: ResRange::any(),
                chunk_px: SetField::Any,
            },
        ),
    }
}

fn vector_onto(crs: SetField<Crs>) -> (r: Constraint)
    ensures
        r@ == vector_reprojection(crs@),
{
    Constraint::Derived {
        input: CapsSet::any_vector(),
        passthrough: FieldMask::without_crs_resolution(),
        output: CapsPattern::Vector(
            VectorPattern { crs, resolution: ResRange::any(), chunk_px: SetField::Any },
        ),
    }
}

impl Reproject {
    pub fn new(to: Crs) -> (r: Reproject)
        ensures
            r.to == to,
    {
        Reproject { to }
    }

    pub fn constraint(&self) -> (r: Constraint)
        ensures
            r@ == raster_reprojection(FieldModel::OneOf(seq![self.to])),
    {
        raster_onto(SetField::one(self.to))
    }
}

impl VecReproject {
    pub fn new(to: Crs) -> (r: VecReproject)
        ensures
            r.to == to,
    {
        VecReproject { to }
    }

    pub fn constraint(&self) -> (r: Constraint)
        ensures
            r@ == vector_reprojection(FieldModel::OneOf(seq![self.to])),
    {
        vector_onto(SetField::one(self.to))
    }
}

/// The elements that can be put on a link whose two sides agree on all but
/// the reference system.
#[derive(Clone, Copy, Debug, PartialEq, Eq, Structural)]
pub enum AdapterKind {
    Raster,
    Vector,
}

/// An element that can be put on a link: what it would demand and offer
/// with its target left free.
#[derive(Debug)]
pub struct Adapter {
    pub kind: AdapterKind,
    pub template: Constraint,
}

/// The template of a kind of adapter.
pub open spec fn template_of(kind: AdapterKind) -> ConstraintModel {
    match kind {
        AdapterKind::Raster => raster_reprojection(FieldModel::Any),
        AdapterKind::Vector => vector_reprojection(FieldModel::Any),
    }
}

/// The reference system that an adapter is built for, where a pattern of
/// its kind names one: the preferred.
pub open spec fn target_of(kind: AdapterKind, p: PatternModel) -> Option<Crs> {
    let crs = match (kind, p) {
        (AdapterKind::Raster, PatternModel::Raster(r)) => Some(r.crs),
        (AdapterKind::Vector, PatternModel::Vector(v)) => Some(v.crs),
        _ => None,
    };
    match crs {
        Some(FieldModel::OneOf(list)) => if list.len() > 0 {
            Some(list[0])
        } else {
            None
        },
        _ => None,
    }
}

fn first_listed(f: &SetField<Crs>) -> (r: Option<Crs>)
    ensures
        r == (match f@ {
            FieldModel::OneOf(list) => if list.len() > 0 {
                Some(list[0])
            } else {
                None
            },
            _ => None,
        }),
{
    match f {
        SetField::OneOf(v) => if v.len() > 0 {
            Some(v[0])
        } else {
            None
        },
        _ => None,
    }
}

impl Adapter {
    /// The reference system that the adapter is built for.
    pub fn target(&self, p: &CapsPattern) -> (r: Option<Crs>)
        ensures
            r == target_of(self.kind, p@),
    {
        match (self.kind, p) {
            (AdapterKind::Raster, CapsPattern::Raster(r)) => first_listed(&r.crs),
            (AdapterKind::Vector, CapsPattern::Vector(v)) => first_listed(&v.crs),
            _ => None,
        }
    }
}

/// The adapters that every graph starts with: rasters first.
pub fn default_adapters() -> (r: Vec<Adapter>)
    ensures
        r@.len() == 2,
        r@[0].kind == AdapterKind::Raster,
        r@[0].template@ == template_of(AdapterKind::Raster),
        r@[1].kind == AdapterKind::Vector,
        r@[1].template@ == template_of(AdapterKind::Vector),
{
    let mut r: Vec<Adapter> = Vec::new();
    r.push(Adapter { kind: AdapterKind::Raster, template: raster_onto(SetField::Any) });
    r.push(Adapter { kind: AdapterKind::Vector, template: vector_onto(SetField::Any) });
    r
}

/// The left edge of the web map.
pub const MERCATOR_WEST: u64 = 0xc1731bf8457c1093;

/// The upper edge of the web map.
pub const MERCATOR_NORTH: u64 = 0x41731bf8457c1093;

/// 180 degrees west.
pub const DEGREES_WEST: u64 = 0xc066800000000000;

/// 90 degrees north.
pub const DEGREES_NORTH: u64 = 0x4056800000000000;

/// Where the grid of a reference system starts: at the edge of the web map
/// or of the globe for those two, else where the input's grid projects to.
pub fn canonical_origin(crs: Crs, projected: (Real, Real)) -> (r: (Real, Real))
    ensures
        r == (if crs == Crs(3857) {
            (Real { bits: MERCATOR_WEST }, Real { bits: MERCATOR_NORTH })
        } else if crs == Crs(4326) {
            (Real { bits: DEGREES_WEST }, Real { bits: DEGREES_NORTH })
        } else {
            projected
        }),
{
    if crs == Crs::web_mercator() {
        (Real { bits: MERCATOR_WEST }, Real { bits: MERCATOR_NORTH })
    } else if crs == Crs::wgs84() {
        (Real { bits: DEGREES_WEST }, Real { bits: DEGREES_NORTH })
    } else {
        projected
    }
}

} // verus!
