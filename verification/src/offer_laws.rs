//! What sources offer and what elements accept and hand on, link state by
//! link state.

use vstd::prelude::*;

use crate::caps;
use crate::caps::{ConstraintModel, Crs, Dtype, FieldModel, FieldValue, PatternModel, ResRange};
use crate::caps_laws;
use crate::caps_laws::Offer;
use crate::elements;
use crate::number::Real;

verus! {

/// A raster source offers its own bands, in double precision, on its own
/// reference system, at its own resolution or a coarser one, in tiles of any
/// size; and nothing else, whatever is asked.
pub proof fn a_raster_source_offers_its_own(
    bands: u16,
    crs: Crs,
    finest: Real,
    link: Seq<PatternModel>,
    o: Offer,
)
    ensures
        caps_laws::set_admits(elements::raster_offer(bands, crs, finest).outputs(link), o) <==> (
        match o {
            Offer::Raster { dtype, bands: b, crs: c, resolution, .. } => dtype == Dtype::F64 && b
                == bands && c == crs && finest.at_most(resolution) && resolution.at_most(
                ResRange::unbounded().max,
            ),
            _ => false,
        }),
{
    let set = elements::raster_offer(bands, crs, finest).outputs(link);
    assert(seq![Dtype::F64][0] == Dtype::F64);
    assert(seq![bands][0] == bands);
    assert(seq![crs][0] == crs);
    assert(set.len() == 1);
    assert(caps_laws::set_admits(set, o) <==> set[0].admits(o));
}

/// A source of points or features offers them on its own reference system,
/// at its own resolution or a coarser one, in tiles of any size.
pub proof fn an_area_source_offers_its_own(
    crs: Crs,
    finest: Real,
    c: Crs,
    resolution: Real,
    chunk_px: u32,
)
    ensures
        elements::area_offer(crs, finest).admits_area(c, resolution, chunk_px) <==> c == crs
            && finest.at_most(resolution) && resolution.at_most(ResRange::unbounded().max),
{
    assert(seq![crs][0] == crs);
}

/// An element that any raster passes accepts a raster of whatever type, band
/// count, reference system and tile size, and no other kind; one that asks
/// for bands accepts those with the bands that it asks for.
pub proof fn an_element_accepts_the_bands_it_asks_for(bands: FieldModel<u16>, o: Offer)
    ensures
        caps_laws::set_admits(elements::any_raster_passes().accepts(), o) <==> (match o {
            Offer::Raster { resolution, .. } => ResRange::unbounded().holds(resolution),
            _ => false,
        }),
        caps_laws::set_admits(elements::banded_passes(bands).accepts(), o) <==> (match o {
            Offer::Raster { bands: b, resolution, .. } => bands.allows(b)
                && ResRange::unbounded().holds(resolution),
            _ => false,
        }),
{
    let any = elements::any_raster_passes().accepts();
    let some = elements::banded_passes(bands).accepts();
    assert(any.len() == 1 && some.len() == 1);
    assert(caps_laws::set_admits(any, o) <==> any[0].admits(o));
    assert(caps_laws::set_admits(some, o) <==> some[0].admits(o));
}

/// A demand for one value allows that value alone, and one from a floor on
/// allows the floor and what ranks above it.
pub proof fn a_demand_allows_what_it_says<T: FieldValue>(x: T, v: T)
    ensures
        FieldModel::OneOf(seq![x]).allows(v) <==> v == x,
        FieldModel::AtLeast(x).allows(v) <==> v.rank() >= x.rank(),
        FieldModel::<T>::Any.allows(v),
{
    assert(seq![x][0] == x);
}

proof fn meeting_all_is_allowing<T: FieldValue>(x: FieldModel<T>, v: T)
    ensures
        FieldModel::<T>::Any.meet(x).allows(v) <==> x.allows(v),
{
}

/// A raster that is reprojected keeps its type, its bands and its tile size;
/// its reference system is the one it goes to, and it comes at any
/// resolution.
pub proof fn a_reprojected_raster_changes_its_place(
    to: FieldModel<Crs>,
    r: caps::RasterModel,
    o: Offer,
)
    ensures
        match elements::raster_reprojection(to) {
            ConstraintModel::Derived { input, passthrough, output } => {
                &&& input.len() == 1
                &&& input[0] == PatternModel::Raster(caps::RasterModel::unbounded())
                &&& caps::projected(PatternModel::Raster(r), output, passthrough).admits(o) <==> (
                match o {
                    Offer::Raster { dtype, bands, crs, resolution, chunk_px } => r.dtype.allows(
                        dtype,
                    ) && r.bands.allows(bands) && to.allows(crs) && ResRange::unbounded().holds(
                        resolution,
                    ) && r.chunk_px.allows(chunk_px),
                    _ => false,
                })
            },
            _ => false,
        },
{
    if let Offer::Raster { dtype, bands, crs, resolution, chunk_px } = o {
        meeting_all_is_allowing(r.dtype, dtype);
        meeting_all_is_allowing(r.bands, bands);
        meeting_all_is_allowing(r.chunk_px, chunk_px);
    }
}

/// Features that are reprojected keep their tile size; their reference
/// system is the one they go to, and they come at any resolution.
pub proof fn a_reprojected_feature_changes_its_place(
    to: FieldModel<Crs>,
    v: caps::AreaModel,
    o: Offer,
)
    ensures
        match elements::vector_reprojection(to) {
            ConstraintModel::Derived { input, passthrough, output } => {
                &&& input.len() == 1
                &&& input[0] == PatternModel::Vector(caps::AreaModel::unbounded())
                &&& caps::projected(PatternModel::Vector(v), output, passthrough).admits(o) <==> (
                match o {
                    Offer::Vector { crs, resolution, chunk_px } => to.allows(crs)
                        && ResRange::unbounded().holds(resolution) && v.chunk_px.allows(chunk_px),
                    _ => false,
                })
            },
            _ => false,
        },
{
    if let Offer::Vector { crs, resolution, chunk_px } = o {
        meeting_all_is_allowing(v.chunk_px, chunk_px);
    }
}

/// What is drawn of features or of points is one band in double precision,
/// on their reference system and in tiles of their size, at any resolution.
pub proof fn what_is_drawn_is_one_band(v: caps::AreaModel, points: bool, o: Offer)
    ensures
        caps::projected(
            if points {
                PatternModel::PointCloud(v)
            } else {
                PatternModel::Vector(v)
            },
            elements::single_band(),
            elements::place_passes(),
        ).admits(o) <==> (match o {
            Offer::Raster { dtype, bands, crs, resolution, chunk_px } => dtype == Dtype::F64
                && bands == 1 && v.crs.allows(crs) && ResRange::unbounded().holds(resolution)
                && v.chunk_px.allows(chunk_px),
            _ => false,
        }),
{
    assert(seq![Dtype::F64][0] == Dtype::F64);
    assert(seq![1u16][0] == 1u16);
    if let Offer::Raster { dtype, bands, crs, resolution, chunk_px } = o {
        meeting_all_is_allowing(v.crs, crs);
        meeting_all_is_allowing(v.chunk_px, chunk_px);
    }
}

/// An adapter is built for the reference system that a pattern of its kind
/// prefers, and for none where the pattern is of another kind or names none.
pub proof fn an_adapter_goes_where_it_is_asked(crs: Crs, more: Seq<Crs>, r: caps::RasterModel, v: caps::AreaModel)
    ensures
        r.crs == FieldModel::OneOf(seq![crs] + more) ==> elements::target_of(
            elements::AdapterKind::Raster,
            PatternModel::Raster(r),
        ) == Some(crs),
        v.crs == FieldModel::OneOf(seq![crs] + more) ==> elements::target_of(
            elements::AdapterKind::Vector,
            PatternModel::Vector(v),
        ) == Some(crs),
        r.crs is Any ==> elements::target_of(
            elements::AdapterKind::Raster,
            PatternModel::Raster(r),
        ) is None,
        v.crs is Any ==> elements::target_of(
            elements::AdapterKind::Vector,
            PatternModel::Vector(v),
        ) is None,
        elements::target_of(elements::AdapterKind::Vector, PatternModel::Raster(r)) is None,
        elements::target_of(elements::AdapterKind::Raster, PatternModel::Vector(v)) is None,
        elements::template_of(elements::AdapterKind::Raster) == elements::raster_reprojection(
            FieldModel::Any,
        ),
        elements::template_of(elements::AdapterKind::Vector) == elements::vector_reprojection(
            FieldModel::Any,
        ),
{
    assert((seq![crs] + more)[0] == crs);
}

} // verus!
