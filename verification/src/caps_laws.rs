//! What the caps algebra keeps: intersections admit what both sides admit,
//! fixed caps stay inside the pattern they came from, and a constraint
//! never widens a link.

use vstd::prelude::*;

use crate::caps;
use crate::caps::{
    AreaModel, Caps, CommonModel, ConstraintModel, Crs, Dtype, FieldMask, FieldModel, FieldValue,
    PatternModel, ResRange, TensorDtype,
};
use crate::number::Real;

verus! {

/// One concrete state of a link: a kind, a value for each of its fields and
/// the resolution of a pull.
#[allow(inconsistent_fields)]
pub enum Offer {
    Raster { dtype: Dtype, bands: u16, crs: Crs, resolution: Real, chunk_px: u32 },
    PointCloud { crs: Crs, resolution: Real, chunk_px: u32 },
    Vector { crs: Crs, resolution: Real, chunk_px: u32 },
    Tensor { dtype: TensorDtype, channels: u16, crs: Crs, resolution: Real, chunk_px: u32 },
}

impl AreaModel {
    pub open spec fn admits_area(self, crs: Crs, resolution: Real, chunk_px: u32) -> bool {
        self.crs.allows(crs) && self.resolution.holds(resolution) && self.chunk_px.allows(chunk_px)
    }
}

impl PatternModel {
    /// The pattern admits a concrete state of the link.
    pub open spec fn admits(self, o: Offer) -> bool {
        match (self, o) {
            (
                PatternModel::Raster(r),
                Offer::Raster { dtype, bands, crs, resolution, chunk_px },
            ) => r.dtype.allows(dtype) && r.bands.allows(bands) && r.crs.allows(crs)
                && r.resolution.holds(resolution) && r.chunk_px.allows(chunk_px),
            (
                PatternModel::PointCloud(p),
                Offer::PointCloud { crs, resolution, chunk_px },
            ) => p.admits_area(crs, resolution, chunk_px),
            (PatternModel::Vector(v), Offer::Vector { crs, resolution, chunk_px }) => v.admits_area(
                crs,
                resolution,
                chunk_px,
            ),
            (
                PatternModel::Tensor(t),
                Offer::Tensor { dtype, channels, crs, resolution, chunk_px },
            ) => t.dtype.allows(dtype) && t.channels.allows(channels) && t.crs.allows(crs)
                && t.resolution.holds(resolution) && t.chunk_px.allows(chunk_px),
            _ => false,
        }
    }

    pub open spec fn resolution_of(self) -> ResRange {
        match self {
            PatternModel::Raster(r) => r.resolution,
            PatternModel::PointCloud(p) => p.resolution,
            PatternModel::Vector(v) => v.resolution,
            PatternModel::Tensor(t) => t.resolution,
        }
    }

    /// The resolution bounds are numbers.
    pub open spec fn proper(self) -> bool {
        self.resolution_of().proper()
    }
}

/// Every resolution bound in a set is a number.
pub open spec fn proper_set(xs: Seq<PatternModel>) -> bool {
    forall|i: int| 0 <= i < xs.len() ==> (#[trigger] xs[i]).proper()
}

/// Some alternative of a set admits a concrete state of the link.
pub open spec fn set_admits(xs: Seq<PatternModel>, o: Offer) -> bool {
    exists|i: int| 0 <= i < xs.len() && (#[trigger] xs[i]).admits(o)
}

/// A resolution lies in the intersection of two ranges exactly where it
/// lies in both.
pub proof fn range_meet_holds(a: ResRange, b: ResRange, r: Real)
    requires
        a.proper(),
        b.proper(),
    ensures
        a.meet(b).proper(),
        a.meet(b).holds(r) == (a.holds(r) && b.holds(r)),
        a.meet(b).empty() ==> !a.meet(b).holds(r),
{
}

/// Two patterns meet in a pattern that admits exactly what both admit;
/// where they do not meet, nothing is admitted by both. In particular two
/// kinds never meet.
pub proof fn pattern_meet_admits(a: PatternModel, b: PatternModel, o: Offer)
    requires
        a.proper(),
        b.proper(),
    ensures
        (match a.meet(b) {
            Some(m) => m.proper() && m.admits(o),
            None => false,
        }) == (a.admits(o) && b.admits(o)),
        a.meet(b) matches Some(m) ==> m.proper() && !m.empty(),
{
    match (a, b, o) {
        (
            PatternModel::Raster(x),
            PatternModel::Raster(y),
            Offer::Raster { dtype, bands, crs, resolution, chunk_px },
        ) => {
            caps::field_meet_allows(x.dtype, y.dtype, dtype);
            caps::field_meet_allows(x.bands, y.bands, bands);
            caps::field_meet_allows(x.crs, y.crs, crs);
            range_meet_holds(x.resolution, y.resolution, resolution);
            caps::field_meet_allows(x.chunk_px, y.chunk_px, chunk_px);
            caps::field_empty_allows_none(x.dtype.meet(y.dtype));
            caps::field_empty_allows_none(x.bands.meet(y.bands));
            caps::field_empty_allows_none(x.crs.meet(y.crs));
            caps::field_empty_allows_none(x.chunk_px.meet(y.chunk_px));
        },
        (
            PatternModel::PointCloud(x),
            PatternModel::PointCloud(y),
            Offer::PointCloud { crs, resolution, chunk_px },
        ) => {
            area_meet_admits(x, y, crs, resolution, chunk_px);
        },
        (
            PatternModel::Vector(x),
            PatternModel::Vector(y),
            Offer::Vector { crs, resolution, chunk_px },
        ) => {
            area_meet_admits(x, y, crs, resolution, chunk_px);
        },
        (
            PatternModel::Tensor(x),
            PatternModel::Tensor(y),
            Offer::Tensor { dtype, channels, crs, resolution, chunk_px },
        ) => {
            caps::field_meet_allows(x.dtype, y.dtype, dtype);
            caps::field_meet_allows(x.channels, y.channels, channels);
            caps::field_meet_allows(x.crs, y.crs, crs);
            range_meet_holds(x.resolution, y.resolution, resolution);
            caps::field_meet_allows(x.chunk_px, y.chunk_px, chunk_px);
            caps::field_empty_allows_none(x.dtype.meet(y.dtype));
            caps::field_empty_allows_none(x.channels.meet(y.channels));
            caps::field_empty_allows_none(x.crs.meet(y.crs));
            caps::field_empty_allows_none(x.chunk_px.meet(y.chunk_px));
        },
        _ => {},
    }
}

proof fn area_meet_admits(x: AreaModel, y: AreaModel, crs: Crs, resolution: Real, chunk_px: u32)
    requires
        x.resolution.proper(),
        y.resolution.proper(),
    ensures
        x.meet(y).admits_area(crs, resolution, chunk_px) == (x.admits_area(
            crs,
            resolution,
            chunk_px,
        ) && y.admits_area(crs, resolution, chunk_px)),
        x.meet(y).empty() ==> !x.meet(y).admits_area(crs, resolution, chunk_px),
{
    caps::field_meet_allows(x.crs, y.crs, crs);
    range_meet_holds(x.resolution, y.resolution, resolution);
    caps::field_meet_allows(x.chunk_px, y.chunk_px, chunk_px);
    caps::field_empty_allows_none(x.crs.meet(y.crs));
    caps::field_empty_allows_none(x.chunk_px.meet(y.chunk_px));
}

proof fn equal_patterns_admit_alike(a: PatternModel, b: PatternModel, o: Offer)
    requires
        a.equals(b),
    ensures
        a.admits(o) == b.admits(o),
{
}

proof fn with_new_admits(set: Seq<PatternModel>, p: PatternModel, o: Offer)
    requires
        proper_set(set),
        p.proper(),
    ensures
        proper_set(caps::with_new(set, p)),
        set_admits(caps::with_new(set, p), o) == (set_admits(set, o) || p.admits(o)),
{
    if caps::listed(set, p) {
        let k = choose|k: int| 0 <= k < set.len() && (#[trigger] set[k]).equals(p);
        equal_patterns_admit_alike(set[k], p, o);
    } else {
        let t = set.push(p);
        if set_admits(set, o) {
            let k = choose|k: int| 0 <= k < set.len() && (#[trigger] set[k]).admits(o);
            assert(t[k].admits(o));
        }
        if p.admits(o) {
            assert(t[set.len() as int].admits(o));
        }
        if set_admits(t, o) {
            let k = choose|k: int| 0 <= k < t.len() && (#[trigger] t[k]).admits(o);
            if k < set.len() {
                assert(set[k].admits(o));
            }
        }
    }
}

proof fn row_meet_admits(set: Seq<PatternModel>, a: PatternModel, bs: Seq<PatternModel>, o: Offer)
    requires
        proper_set(set),
        a.proper(),
        proper_set(bs),
    ensures
        proper_set(caps::row_meet(set, a, bs)),
        set_admits(caps::row_meet(set, a, bs), o) == (set_admits(set, o) || (a.admits(o) && set_admits(
            bs,
            o,
        ))),
    decreases bs.len(),
{
    if bs.len() > 0 {
        let rest = bs.drop_last();
        assert(proper_set(rest)) by {
            assert forall|i: int| 0 <= i < rest.len() implies (#[trigger] rest[i]).proper() by {
                assert(bs[i].proper());
            }
        }
        row_meet_admits(set, a, rest, o);
        let last = bs.last();
        assert(bs[bs.len() - 1].proper());
        pattern_meet_admits(a, last, o);
        if let Some(p) = a.meet(last) {
            with_new_admits(caps::row_meet(set, a, rest), p, o);
        }
        if set_admits(rest, o) {
            let k = choose|k: int| 0 <= k < rest.len() && (#[trigger] rest[k]).admits(o);
            assert(bs[k].admits(o));
        }
        if last.admits(o) {
            assert(bs[bs.len() - 1].admits(o));
        }
        if set_admits(bs, o) {
            let k = choose|k: int| 0 <= k < bs.len() && (#[trigger] bs[k]).admits(o);
            if k < rest.len() {
                assert(rest[k].admits(o));
            }
        }
    }
}

/// The intersection of two sets admits exactly what both sets admit.
pub proof fn set_meet_admits(xs: Seq<PatternModel>, ys: Seq<PatternModel>, o: Offer)
    requires
        proper_set(xs),
        proper_set(ys),
    ensures
        proper_set(caps::set_meet(xs, ys)),
        set_admits(caps::set_meet(xs, ys), o) == (set_admits(xs, o) && set_admits(ys, o)),
    decreases xs.len(),
{
    if xs.len() > 0 {
        let rest = xs.drop_last();
        assert(proper_set(rest)) by {
            assert forall|i: int| 0 <= i < rest.len() implies (#[trigger] rest[i]).proper() by {
                assert(xs[i].proper());
            }
        }
        set_meet_admits(rest, ys, o);
        assert(xs[xs.len() - 1].proper());
        row_meet_admits(caps::set_meet(rest, ys), xs.last(), ys, o);
        if set_admits(rest, o) {
            let k = choose|k: int| 0 <= k < rest.len() && (#[trigger] rest[k]).admits(o);
            assert(xs[k].admits(o));
        }
        if xs.last().admits(o) {
            assert(xs[xs.len() - 1].admits(o));
        }
        if set_admits(xs, o) {
            let k = choose|k: int| 0 <= k < xs.len() && (#[trigger] xs[k]).admits(o);
            if k < rest.len() {
                assert(rest[k].admits(o));
            }
        }
    }
}

proof fn preferred_is_allowed<T: FieldValue>(f: FieldModel<T>, fallback: T)
    ensures
        !f.empty() ==> f.allows(f.preferred_or(fallback)),
{
    caps::field_empty_allows_none(f);
}

proof fn only_value<T>(v: T, w: T)
    ensures
        seq![v].contains(w) == (v == w),
{
    if v == w {
        assert(seq![v][0] == w);
    }
}

/// Caps fixed from a pattern stay inside it: what the fixed caps admit, the
/// pattern admits.
pub proof fn fixed_caps_stay_inside(p: PatternModel, c: Caps, o: Offer)
    requires
        caps::fixed_caps(p) == Some(c),
        !p.empty(),
        c.as_pattern().admits(o),
    ensures
        p.admits(o),
{
    match p {
        PatternModel::Raster(r) => {
            preferred_is_allowed(r.dtype, Dtype::F64);
            preferred_is_allowed(r.bands, 1);
            preferred_is_allowed(r.crs, r.crs.preferred()->0);
            preferred_is_allowed(r.chunk_px, 256);
            if let Offer::Raster { dtype, bands, crs, chunk_px, .. } = o {
                only_value(c->Raster_0.dtype, dtype);
                only_value(c->Raster_0.bands, bands);
                only_value(c->Raster_0.crs, crs);
                only_value(c->Raster_0.chunk_px, chunk_px);
            }
        },
        PatternModel::PointCloud(r) => {
            preferred_is_allowed(r.crs, r.crs.preferred()->0);
            preferred_is_allowed(r.chunk_px, 256);
            if let Offer::PointCloud { crs, chunk_px, .. } = o {
                only_value(c->PointCloud_0.crs, crs);
                only_value(c->PointCloud_0.chunk_px, chunk_px);
            }
        },
        PatternModel::Vector(r) => {
            preferred_is_allowed(r.crs, r.crs.preferred()->0);
            preferred_is_allowed(r.chunk_px, 256);
            if let Offer::Vector { crs, chunk_px, .. } = o {
                only_value(c->Vector_0.crs, crs);
                only_value(c->Vector_0.chunk_px, chunk_px);
            }
        },
        PatternModel::Tensor(r) => {
            preferred_is_allowed(r.dtype, TensorDtype::F32);
            preferred_is_allowed(r.channels, 1);
            preferred_is_allowed(r.crs, r.crs.preferred()->0);
            preferred_is_allowed(r.chunk_px, 256);
            if let Offer::Tensor { dtype, channels, crs, chunk_px, .. } = o {
                only_value(c->Tensor_0.dtype, dtype);
                only_value(c->Tensor_0.channels, channels);
                only_value(c->Tensor_0.crs, crs);
                only_value(c->Tensor_0.chunk_px, chunk_px);
            }
        },
    }
}

proof fn masked_narrows<T: FieldValue>(on: bool, onto: FieldModel<T>, from: FieldModel<T>, v: T)
    ensures
        caps::masked(on, onto, from).allows(v) == (onto.allows(v) && (on ==> from.allows(v))),
{
    caps::field_meet_allows(onto, from, v);
}

/// A projection only narrows: what it admits, the pattern it was laid onto
/// admits, and the masked reference system and chunk size of the other side
/// are met.
pub proof fn projection_narrows(from: PatternModel, onto: PatternModel, mask: FieldMask, o: Offer)
    requires
        from.proper(),
        onto.proper(),
    ensures
        caps::projected(from, onto, mask).proper(),
        caps::projected(from, onto, mask).admits(o) ==> onto.admits(o),
        caps::projected(from, onto, mask).admits(o) ==> common_met(from.common(), mask, o),
{
    match o {
        Offer::Raster { dtype, bands, crs, resolution, chunk_px } => {
            if let PatternModel::Raster(r) = onto {
                masked_narrows(mask.bands, r.bands, from.common().planes, bands);
                masked_narrows(mask.crs, r.crs, from.common().crs, crs);
                masked_narrows(mask.chunk_px, r.chunk_px, from.common().chunk_px, chunk_px);
                range_meet_holds(r.resolution, from.common().resolution, resolution);
                if let PatternModel::Raster(f) = from {
                    masked_narrows(mask.dtype, r.dtype, f.dtype, dtype);
                }
            }
        },
        Offer::PointCloud { crs, resolution, chunk_px } => {
            if let PatternModel::PointCloud(r) = onto {
                masked_narrows(mask.crs, r.crs, from.common().crs, crs);
                masked_narrows(mask.chunk_px, r.chunk_px, from.common().chunk_px, chunk_px);
                range_meet_holds(r.resolution, from.common().resolution, resolution);
            }
        },
        Offer::Vector { crs, resolution, chunk_px } => {
            if let PatternModel::Vector(r) = onto {
                masked_narrows(mask.crs, r.crs, from.common().crs, crs);
                masked_narrows(mask.chunk_px, r.chunk_px, from.common().chunk_px, chunk_px);
                range_meet_holds(r.resolution, from.common().resolution, resolution);
            }
        },
        Offer::Tensor { dtype, channels, crs, resolution, chunk_px } => {
            if let PatternModel::Tensor(r) = onto {
                masked_narrows(mask.bands, r.channels, from.common().planes, channels);
                masked_narrows(mask.crs, r.crs, from.common().crs, crs);
                masked_narrows(mask.chunk_px, r.chunk_px, from.common().chunk_px, chunk_px);
                range_meet_holds(r.resolution, from.common().resolution, resolution);
            }
        },
    }
}

/// The masked common fields are met by a concrete state of a link.
pub open spec fn common_met(from: CommonModel, mask: FieldMask, o: Offer) -> bool {
    match o {
        Offer::Raster { bands, crs, resolution, chunk_px, .. } => (mask.crs ==> from.crs.allows(
            crs,
        )) && (mask.resolution ==> from.resolution.holds(resolution)) && (mask.chunk_px
            ==> from.chunk_px.allows(chunk_px)) && (mask.bands ==> from.planes.allows(bands)),
        Offer::PointCloud { crs, resolution, chunk_px } => (mask.crs ==> from.crs.allows(crs)) && (
        mask.resolution ==> from.resolution.holds(resolution)) && (mask.chunk_px
            ==> from.chunk_px.allows(chunk_px)),
        Offer::Vector { crs, resolution, chunk_px } => (mask.crs ==> from.crs.allows(crs)) && (
        mask.resolution ==> from.resolution.holds(resolution)) && (mask.chunk_px
            ==> from.chunk_px.allows(chunk_px)),
        Offer::Tensor { channels, crs, resolution, chunk_px, .. } => (mask.crs ==> from.crs.allows(
            crs,
        )) && (mask.resolution ==> from.resolution.holds(resolution)) && (mask.chunk_px
            ==> from.chunk_px.allows(chunk_px)) && (mask.bands ==> from.planes.allows(channels)),
    }
}

proof fn first_pinned_narrows(
    input: PatternModel,
    pins: Seq<PatternModel>,
    mask: FieldMask,
    o: Offer,
)
    requires
        input.proper(),
        proper_set(pins),
    ensures
        caps::first_pinned(input, pins, mask) matches Some(p) ==> p.proper() && (p.admits(o)
            ==> input.admits(o)),
    decreases pins.len(),
{
    if pins.len() > 0 {
        assert(pins[0].proper());
        projection_narrows(pins[0], input, mask, o);
        let rest = pins.drop_first();
        assert forall|i: int| 0 <= i < rest.len() implies (#[trigger] rest[i]).proper() by {
            assert(pins[i + 1].proper());
        }
        first_pinned_narrows(input, rest, mask, o);
    }
}

proof fn pinned_inputs_narrow(
    inputs: Seq<PatternModel>,
    pins: Seq<PatternModel>,
    mask: FieldMask,
    o: Offer,
)
    requires
        proper_set(inputs),
        proper_set(pins),
    ensures
        proper_set(caps::pinned_inputs(inputs, pins, mask)),
        set_admits(caps::pinned_inputs(inputs, pins, mask), o) ==> set_admits(inputs, o),
    decreases inputs.len(),
{
    if inputs.len() > 0 {
        let rest = inputs.drop_last();
        assert forall|i: int| 0 <= i < rest.len() implies (#[trigger] rest[i]).proper() by {
            assert(inputs[i].proper());
        }
        pinned_inputs_narrow(rest, pins, mask, o);
        assert(inputs[inputs.len() - 1].proper());
        first_pinned_narrows(inputs.last(), pins, mask, o);
        let before = caps::pinned_inputs(rest, pins, mask);
        let all = caps::pinned_inputs(inputs, pins, mask);
        if set_admits(all, o) {
            let k = choose|k: int| 0 <= k < all.len() && (#[trigger] all[k]).admits(o);
            if k < before.len() {
                assert(before[k].admits(o));
                let j = choose|j: int| 0 <= j < rest.len() && (#[trigger] rest[j]).admits(o);
                assert(inputs[j].admits(o));
            } else {
                assert(inputs[inputs.len() - 1].admits(o));
            }
        }
    }
}

/// Backward narrowing never widens a link: what is left of the input link
/// was on it before.
pub proof fn narrowing_never_widens(
    c: ConstraintModel,
    input_link: Seq<PatternModel>,
    pin: Seq<PatternModel>,
    o: Offer,
)
    requires
        proper_set(input_link),
        proper_set(pin),
        set_admits(c.narrowed(input_link, pin), o),
    ensures
        set_admits(input_link, o),
{
    match c {
        ConstraintModel::Produces(_) => {},
        ConstraintModel::Identity(_) => {
            set_meet_admits(input_link, pin, o);
        },
        ConstraintModel::Derived { passthrough, .. } => {
            pinned_inputs_narrow(input_link, pin, passthrough, o);
        },
    }
}

/// An identity hands out exactly what its input link and its own set admit.
pub proof fn identity_passes_through(
    set: Seq<PatternModel>,
    input_link: Seq<PatternModel>,
    o: Offer,
)
    requires
        proper_set(set),
        proper_set(input_link),
    ensures
        set_admits(ConstraintModel::Identity(set).outputs(input_link), o) == (set_admits(
            input_link,
            o,
        ) && set_admits(set, o)),
{
    set_meet_admits(input_link, set, o);
}

/// A projection takes no more than it has to: what the pattern that it is
/// laid onto admits stays, where the masked fields of the other side are
/// met.
pub proof fn projection_takes_no_more(
    from: PatternModel,
    onto: PatternModel,
    mask: FieldMask,
    o: Offer,
)
    requires
        from.proper(),
        onto.proper(),
        onto.admits(o),
        common_met(from.common(), mask, o),
        match (from, o) {
            (PatternModel::Raster(f), Offer::Raster { dtype, .. }) => mask.dtype
                ==> f.dtype.allows(dtype),
            _ => true,
        },
    ensures
        caps::projected(from, onto, mask).admits(o),
{
    match o {
        Offer::Raster { dtype, bands, crs, resolution, chunk_px } => {
            if let PatternModel::Raster(r) = onto {
                masked_narrows(mask.bands, r.bands, from.common().planes, bands);
                masked_narrows(mask.crs, r.crs, from.common().crs, crs);
                masked_narrows(mask.chunk_px, r.chunk_px, from.common().chunk_px, chunk_px);
                range_meet_holds(r.resolution, from.common().resolution, resolution);
                if let PatternModel::Raster(f) = from {
                    masked_narrows(mask.dtype, r.dtype, f.dtype, dtype);
                }
            }
        },
        Offer::PointCloud { crs, resolution, chunk_px } => {
            if let PatternModel::PointCloud(r) = onto {
                masked_narrows(mask.crs, r.crs, from.common().crs, crs);
                masked_narrows(mask.chunk_px, r.chunk_px, from.common().chunk_px, chunk_px);
                range_meet_holds(r.resolution, from.common().resolution, resolution);
            }
        },
        Offer::Vector { crs, resolution, chunk_px } => {
            if let PatternModel::Vector(r) = onto {
                masked_narrows(mask.crs, r.crs, from.common().crs, crs);
                masked_narrows(mask.chunk_px, r.chunk_px, from.common().chunk_px, chunk_px);
                range_meet_holds(r.resolution, from.common().resolution, resolution);
            }
        },
        Offer::Tensor { dtype, channels, crs, resolution, chunk_px } => {
            if let PatternModel::Tensor(r) = onto {
                masked_narrows(mask.bands, r.channels, from.common().planes, channels);
                masked_narrows(mask.crs, r.crs, from.common().crs, crs);
                masked_narrows(mask.chunk_px, r.chunk_px, from.common().chunk_px, chunk_px);
                range_meet_holds(r.resolution, from.common().resolution, resolution);
            }
        },
    }
}

// Preferences.

proof fn keeps_all<T>(s: Seq<T>, keep: spec_fn(T) -> bool)
    requires
        forall|i: int| 0 <= i < s.len() ==> keep(#[trigger] s[i]),
    ensures
        s.filter(keep) == s,
    decreases s.len(),
{
    reveal(Seq::filter);
    if s.len() > 0 {
        let rest = s.drop_last();
        assert forall|i: int| 0 <= i < rest.len() implies keep(#[trigger] rest[i]) by {
            assert(rest[i] == s[i]);
        }
        keeps_all(rest, keep);
        assert(keep(s[s.len() - 1]));
        assert(rest.push(s.last()) =~= s);
    }
}

/// The first of the values that a demand lists is preferred, of those from a
/// floor on the floor itself, and where any will do none is.
pub proof fn the_first_value_is_preferred<T: FieldValue>(x: Seq<T>, floor: T, fallback: T)
    ensures
        x.len() > 0 ==> FieldModel::OneOf(x).preferred() == Some(x[0])
            && FieldModel::OneOf(x).preferred_or(fallback) == x[0],
        FieldModel::AtLeast(floor).preferred_or(fallback) == floor,
        FieldModel::<T>::Any.preferred() is None,
        FieldModel::<T>::Any.preferred_or(fallback) == fallback,
{
}

/// A demand that another leaves all of keeps its values and their order; a
/// floor is raised to the higher of two.
pub proof fn a_demand_keeps_its_order<T: FieldValue>(x: Seq<T>, y: Seq<T>, f: T, g: T)
    ensures
        (forall|i: int| 0 <= i < x.len() ==> y.contains(#[trigger] x[i])) ==> FieldModel::OneOf(
            x,
        ).meet(FieldModel::OneOf(y)) == FieldModel::OneOf(x),
        (forall|i: int| 0 <= i < x.len() ==> (#[trigger] x[i]).rank() >= f.rank())
            ==> FieldModel::OneOf(x).meet(FieldModel::AtLeast(f)) == FieldModel::OneOf(x)
            && FieldModel::AtLeast(f).meet(FieldModel::OneOf(x)) == FieldModel::OneOf(x),
        FieldModel::OneOf(x).meet(FieldModel::Any) == FieldModel::OneOf(x),
        FieldModel::Any.meet(FieldModel::OneOf(x)) == FieldModel::OneOf(x),
        f.rank() < g.rank() ==> FieldModel::AtLeast(f).meet(FieldModel::AtLeast(g))
            == FieldModel::AtLeast(g) && FieldModel::AtLeast(g).meet(FieldModel::AtLeast(f))
            == FieldModel::AtLeast(g),
{
    if forall|i: int| 0 <= i < x.len() ==> y.contains(#[trigger] x[i]) {
        keeps_all(x, |v: T| y.contains(v));
    }
    if forall|i: int| 0 <= i < x.len() ==> (#[trigger] x[i]).rank() >= f.rank() {
        keeps_all(x, |v: T| v.rank() >= f.rank());
    }
}

/// A pattern is fixed to its preferred values: doubles, or singles of a
/// tensor, one band or channel and chunks of 256 pixels where it names none,
/// and its own range of resolutions. Without a reference system it is not
/// fixed.
pub proof fn a_pattern_is_fixed_to_what_it_prefers(p: PatternModel)
    ensures
        match p {
            PatternModel::Raster(r) => match r.crs.preferred() {
                None => caps::fixed_caps(p) is None,
                Some(crs) => caps::fixed_caps(p) matches Some(Caps::Raster(c)) && c.crs == crs
                    && c.dtype == r.dtype.preferred_or(Dtype::F64) && c.bands
                    == r.bands.preferred_or(1) && c.resolution == r.resolution && c.chunk_px
                    == r.chunk_px.preferred_or(256),
            },
            PatternModel::PointCloud(r) => match r.crs.preferred() {
                None => caps::fixed_caps(p) is None,
                Some(crs) => caps::fixed_caps(p) matches Some(Caps::PointCloud(c)) && c.crs == crs
                    && c.resolution == r.resolution && c.chunk_px == r.chunk_px.preferred_or(256),
            },
            PatternModel::Vector(r) => match r.crs.preferred() {
                None => caps::fixed_caps(p) is None,
                Some(crs) => caps::fixed_caps(p) matches Some(Caps::Vector(c)) && c.crs == crs
                    && c.resolution == r.resolution && c.chunk_px == r.chunk_px.preferred_or(256),
            },
            PatternModel::Tensor(r) => match r.crs.preferred() {
                None => caps::fixed_caps(p) is None,
                Some(crs) => caps::fixed_caps(p) matches Some(Caps::Tensor(c)) && c.crs == crs
                    && c.dtype == r.dtype.preferred_or(TensorDtype::F32) && c.channels
                    == r.channels.preferred_or(1) && c.resolution == r.resolution && c.chunk_px
                    == r.chunk_px.preferred_or(256),
            },
        },
{
}

proof fn rows_go_on(set: Seq<PatternModel>, a: PatternModel, bs: Seq<PatternModel>)
    ensures
        set.len() <= caps::row_meet(set, a, bs).len(),
        caps::row_meet(set, a, bs).take(set.len() as int) == set,
    decreases bs.len(),
{
    if bs.len() > 0 {
        rows_go_on(set, a, bs.drop_last());
        let before = caps::row_meet(set, a, bs.drop_last());
        let all = caps::row_meet(set, a, bs);
        assert(all.take(set.len() as int) =~= before.take(set.len() as int));
    } else {
        assert(set.take(set.len() as int) =~= set);
    }
}

/// The alternatives of the first set come in their order: what an earlier
/// one leaves stands before what a later one does.
pub proof fn earlier_alternatives_come_first(
    xs: Seq<PatternModel>,
    a: PatternModel,
    ys: Seq<PatternModel>,
)
    ensures
        caps::set_meet(xs, ys).len() <= caps::set_meet(xs.push(a), ys).len(),
        caps::set_meet(xs.push(a), ys).take(caps::set_meet(xs, ys).len() as int) == caps::set_meet(
            xs,
            ys,
        ),
{
    assert(xs.push(a).drop_last() =~= xs);
    rows_go_on(caps::set_meet(xs, ys), a, ys);
}

/// Two alternatives leave what both leave, and two that leave nothing leave
/// none.
pub proof fn two_alternatives_leave_their_meet(a: PatternModel, b: PatternModel)
    ensures
        caps::set_meet(seq![a], seq![b]) == (match a.meet(b) {
            Some(m) => seq![m],
            None => Seq::<PatternModel>::empty(),
        }),
{
    let none = Seq::<PatternModel>::empty();
    assert(seq![a].drop_last() =~= none);
    assert(seq![b].drop_last() =~= none);
    assert(caps::set_meet(seq![a].drop_last(), seq![b]) =~= none);
    assert(seq![a].last() == a && seq![b].last() == b);
    assert(caps::row_meet(none, a, seq![b].drop_last()) == none);
    assert(!caps::listed(none, a));
    if let Some(m) = a.meet(b) {
        assert(!caps::listed(none, m));
        assert(none.push(m) =~= seq![m]);
    }
}

/// An input alternative is kept where some pin leaves anything of it, and
/// narrowed by the first pin that does.
pub proof fn the_first_pin_that_leaves_anything_counts(
    input: PatternModel,
    pins: Seq<PatternModel>,
    mask: FieldMask,
    i: int,
)
    requires
        0 <= i <= pins.len(),
        forall|j: int| 0 <= j < i ==> caps::projected(#[trigger] pins[j], input, mask).empty(),
        i < pins.len() ==> !caps::projected(pins[i], input, mask).empty(),
    ensures
        caps::first_pinned(input, pins, mask) == (if i < pins.len() {
            Some(caps::projected(pins[i], input, mask))
        } else {
            None
        }),
    decreases pins.len(),
{
    if pins.len() > 0 && i > 0 {
        assert(caps::projected(pins[0], input, mask).empty());
        let rest = pins.drop_first();
        assert forall|j: int| 0 <= j < i - 1 implies caps::projected(
            #[trigger] rest[j],
            input,
            mask,
        ).empty() by {
            assert(rest[j] == pins[j + 1]);
        }
        if i < pins.len() {
            assert(rest[i - 1] == pins[i]);
        }
        the_first_pin_that_leaves_anything_counts(input, rest, mask, i - 1);
    }
}

/// A source offers its set whatever is asked of its input, a pass-through
/// accepts its set, and an element that derives its output makes one of each
/// alternative that its input and its demand leave.
pub proof fn an_element_offers_what_it_says(
    set: Seq<PatternModel>,
    link: Seq<PatternModel>,
    mask: FieldMask,
    output: PatternModel,
    i: int,
)
    ensures
        ConstraintModel::Produces(set).outputs(link) == set,
        ConstraintModel::Produces(set).narrowed(link, set) == link,
        ConstraintModel::Identity(set).accepts() == set,
        (ConstraintModel::Derived { input: set, passthrough: mask, output }).accepts() == set,
        ({
            let made = (ConstraintModel::Derived { input: set, passthrough: mask, output }).outputs(
                link,
            );
            let met = caps::set_meet(link, set);
            &&& made.len() == met.len()
            &&& 0 <= i < met.len() ==> made[i] == caps::projected(met[i], output, mask)
        }),
{
}

} // verus!
