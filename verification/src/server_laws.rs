//! What a layer file and a request ask for.

use vstd::prelude::*;

use crate::caps::Crs;
use crate::chunk::{Coord, FeatureGeometry, GeometryModel, PolygonModel};
use crate::config;
use crate::config::{
    BoundaryCheck, Config, FaninConfig, FocalOpConfig, GrayConfig, LayerConfig, OpConfig,
    SourceConfig,
};
use crate::elements::FocalOp;
use crate::geometry;
use crate::json;
use crate::json::{JsonModel, JsonNumber};
use crate::number::Real;
use crate::stages;
use crate::stages::Stage;
use crate::window::Bbox;
use crate::zonal;
use crate::zonal::FeatureStatistics;
use crate::zones;
use crate::zones::{PlanFault, WindowFault, ZoneFault};

verus! {

// Ranges of gray.

/// An operation leaves the range of the values before it as it is.
pub open spec fn keeps_range(op: OpConfig) -> bool {
    !(op is Bandmath) && !(op is Slope) && !(op is Aspect) && !(op is Reclassify)
        && !(op is Rasterize)
}

proof fn a_range_lasts(ops: Seq<OpConfig>, start: Option<GrayConfig>, i: int, n: int)
    requires
        0 <= i <= n <= ops.len(),
        forall|j: int| i <= j < n ==> keeps_range(#[trigger] ops[j]),
    ensures
        config::range_over(ops, start, n) == config::range_over(ops, start, i),
    decreases n,
{
    if i < n {
        a_range_lasts(ops, start, i, n - 1);
        assert(keeps_range(ops[n - 1]));
    }
}

/// A layer is encoded over its own range where it names one, else over the
/// range of the last operation that fixes one: a formula's own bounds, zero
/// to ninety for a slope and zero to three hundred and sixty for an aspect.
/// Classes and burned values have none.
pub proof fn the_last_range_counts(l: LayerConfig, i: int)
    requires
        0 <= i < l.ops@.len(),
        !keeps_range(l.ops@[i]),
        forall|j: int| i < j < l.ops@.len() ==> keeps_range(#[trigger] l.ops@[j]),
    ensures
        l.gray is Some ==> config::gray_of(l) == l.gray,
        l.gray is None ==> config::gray_of(l) == (match l.ops@[i] {
            OpConfig::Bandmath { min, max, .. } => Some(GrayConfig { min, max }),
            OpConfig::Slope => Some(
                GrayConfig {
                    min: Real { bits: 0 },
                    max: Real { bits: 0x4056_8000_0000_0000 },
                },
            ),
            OpConfig::Aspect => Some(
                GrayConfig {
                    min: Real { bits: 0 },
                    max: Real { bits: 0x4076_8000_0000_0000 },
                },
            ),
            _ => None,
        }),
{
    let start = if l.source is Some {
        Some(config::from_zero(config::DEFAULT_GRAY_MAX))
    } else {
        None
    };
    a_range_lasts(l.ops@, start, i + 1, l.ops@.len() as int);
}

/// A layer of one source whose operations fix no range is encoded over zero
/// to two hundred and fifty-five, and one that joins inputs has no range.
pub proof fn a_range_without_operations(l: LayerConfig)
    requires
        l.gray is None,
        forall|j: int| 0 <= j < l.ops@.len() ==> keeps_range(#[trigger] l.ops@[j]),
    ensures
        config::gray_of(l) == (if l.source is Some {
            Some(
                GrayConfig {
                    min: Real { bits: 0 },
                    max: Real { bits: 0x406f_e000_0000_0000 },
                },
            )
        } else {
            None
        }),
{
    let start = if l.source is Some {
        Some(config::from_zero(config::DEFAULT_GRAY_MAX))
    } else {
        None
    };
    a_range_lasts(l.ops@, start, 0, l.ops@.len() as int);
}

// Layers.

/// A layer names one source, or two or more inputs and a mosaic of them, or
/// two inputs and a combination; anything else is refused.
pub proof fn a_layer_has_a_source_or_a_join(l: LayerConfig)
    ensures
        (config::shape_fault(l) is None) == (match (l.source, l.fanin) {
            (Some(_), None) => l.inputs@.len() == 0,
            (None, Some(FaninConfig::Mosaic)) => l.inputs@.len() >= 2,
            (None, Some(FaninConfig::Combine { .. })) => l.inputs@.len() == 2,
            _ => false,
        }),
{
}

/// An operation is sound: a convolution has an offset for each scale, and a
/// boundary that was looked at has no fault.
pub open spec fn is_sound_op(op: OpConfig, checks: Seq<BoundaryCheck>) -> bool {
    match op {
        OpConfig::Convolve { scales, offsets, .. } => scales@.len() == offsets@.len(),
        OpConfig::VecClip { boundary } => config::boundary_fault(checks, boundary@, 0) is None,
        _ => true,
    }
}

proof fn sound_ops_have_no_fault(ops: Seq<OpConfig>, checks: Seq<BoundaryCheck>, i: int)
    requires
        0 <= i <= ops.len(),
    ensures
        (config::ops_fault(ops, checks, i) is None) == (forall|j: int|
            i <= j < ops.len() ==> is_sound_op(#[trigger] ops[j], checks)),
    decreases ops.len() - i,
{
    if i < ops.len() {
        sound_ops_have_no_fault(ops, checks, i + 1);
        if config::ops_fault(ops, checks, i) is None {
            assert forall|j: int| i <= j < ops.len() implies is_sound_op(
                #[trigger] ops[j],
                checks,
            ) by {}
        } else if config::op_fault(ops[i], checks) is Some {
            assert(!is_sound_op(ops[i], checks));
        }
    }
}

/// A source and its operations are served where a catalogue names assets,
/// features are burned, points are gridded, and every operation is sound;
/// anything else is refused.
pub proof fn a_branch_ends_in_pixels(
    source: SourceConfig,
    ops: Seq<OpConfig>,
    checks: Seq<BoundaryCheck>,
)
    ensures
        (config::branch_fault(source, ops, checks) is None) == ((source is Stac
            ==> source->assets@.len() > 0) && (source is Geojson ==> exists|i: int|
            0 <= i < ops.len() && #[trigger] ops[i] is Rasterize) && (source is Las ==> exists|
            i: int,
        |
            0 <= i < ops.len() && #[trigger] ops[i] is Idw) && (forall|j: int|
            0 <= j < ops.len() ==> is_sound_op(#[trigger] ops[j], checks))),
{
    sound_ops_have_no_fault(ops, checks, 0);
}

proof fn sound_layers(ls: Seq<LayerConfig>, checks: Seq<BoundaryCheck>, from: int)
    requires
        0 <= from <= ls.len(),
    ensures
        (config::layers_fault(ls, checks, from) is None) == (forall|i: int|
            from <= i < ls.len() ==> config::is_segment((#[trigger] ls[i]).name@)
                && !config::named_before(ls, i) && config::layer_fault(ls[i], checks) is None),
    decreases ls.len() - from,
{
    if from < ls.len() {
        sound_layers(ls, checks, from + 1);
        if config::layers_fault(ls, checks, from) is None {
            assert forall|i: int| from <= i < ls.len() implies config::is_segment(
                (#[trigger] ls[i]).name@,
            ) && !config::named_before(ls, i) && config::layer_fault(ls[i], checks) is None by {}
        } else {
            if config::is_segment(ls[from].name@) && !config::named_before(ls, from)
                && config::layer_fault(ls[from], checks) is None {
                assert(config::layers_fault(ls, checks, from + 1) is Some);
            }
        }
    }
}

/// A layer file is served where it has a layer and every layer has a name of
/// its own that is a part of a path, and is sound; anything else is refused.
pub proof fn a_sound_layer_file_is_served(c: Config, checks: Seq<BoundaryCheck>)
    ensures
        (config::config_fault(c, checks) is None) == (c.layers@.len() > 0 && forall|i: int|
            0 <= i < c.layers@.len() ==> (#[trigger] c.layers@[i]).name@.len() > 0
                && config::is_segment(c.layers@[i].name@) && (forall|j: int|
                0 <= j < i ==> (#[trigger] c.layers@[j]).name@ != c.layers@[i].name@)
                && config::layer_fault(c.layers@[i], checks) is None),
{
    let ls = c.layers@;
    sound_layers(ls, checks, 0);
    assert forall|i: int| 0 <= i < ls.len() implies (!config::named_before(ls, i)) == (forall|
        j: int,
    |
        0 <= j < i ==> (#[trigger] ls[j]).name@ != (#[trigger] ls[i]).name@) by {}
}

/// A name is a part of a path where it holds something and neither a stroke
/// nor a space.
pub proof fn a_name_is_part_of_a_path(name: Seq<char>, i: int)
    ensures
        config::is_segment(name) && 0 <= i < name.len() ==> name[i] != '/' && name[i] != ' ',
        name.len() == 0 ==> !config::is_segment(name),
        name.len() > 0 && (forall|j: int|
            0 <= j < name.len() ==> (#[trigger] name[j]) != '/' && name[j] != ' ')
            ==> config::is_segment(name),
{
}

/// A boundary holds every polygon of its features, in order.
pub proof fn a_boundary_holds_every_polygon(fs: Seq<Option<FeatureGeometry>>, n: int)
    requires
        0 <= n < fs.len(),
        config::boundary(fs, n) is Ok,
    ensures
        config::boundary(fs, 0) == Ok::<Seq<PolygonModel>, usize>(Seq::empty()),
        config::boundary(fs, n + 1) == (match fs[n] {
            Some(g) => match g@ {
                GeometryModel::Polygon(p) => Ok(config::boundary(fs, n)->Ok_0.push(p)),
                GeometryModel::MultiPolygon(ps) => Ok(config::boundary(fs, n)->Ok_0 + ps),
                _ => Err(n as usize),
            },
            None => Err(n as usize),
        }),
{
}

// Wiring.

/// Every operation is the element of its name, with its own parameters; a
/// convolution turns bands into channels, convolves them and turns them
/// back.
pub proof fn an_operation_is_its_element(op: &OpConfig)
    ensures
        match *op {
            OpConfig::Hillshade { azimuth, altitude } => stages::op_stages(op)
                == seq![Stage::Hillshade(azimuth, altitude)],
            OpConfig::Slope => stages::op_stages(op) == seq![Stage::<'_>::Slope],
            OpConfig::Aspect => stages::op_stages(op) == seq![Stage::<'_>::Aspect],
            OpConfig::Focal { op: statistic, radius } => stages::op_stages(op).len() == 1
                && stages::op_stages(op)[0] == Stage::Focal(
                match statistic {
                    FocalOpConfig::Mean => FocalOp::Mean,
                    FocalOpConfig::Median => FocalOp::Median,
                    FocalOpConfig::Min => FocalOp::Min,
                    FocalOpConfig::Max => FocalOp::Max,
                },
                radius,
            ),
            OpConfig::Unary { op: unary } => stages::op_stages(op) == seq![Stage::Unary(unary)],
            OpConfig::Convolve { kernel, scales, offsets } => stages::op_stages(op).len() == 3
                && stages::op_stages(op)[0] == Stage::ToTensor(&scales, &offsets)
                && stages::op_stages(op)[1] == Stage::TensorConv(&kernel) && stages::op_stages(
                op,
            )[2] == Stage::<'_>::ToRaster,
            OpConfig::Idw { power, radius_px, min_points } => stages::op_stages(op)
                == seq![Stage::Idw(power, radius_px, min_points)],
            _ => stages::op_stages(op).len() == 1,
        },
{
}

/// The elements of a chain stand in the order of its operations.
pub proof fn a_chain_is_its_operations(ops: &Vec<OpConfig>, n: int)
    requires
        0 <= n < ops@.len(),
    ensures
        stages::chain_stages(ops, 0).len() == 0,
        stages::chain_stages(ops, n + 1) == stages::chain_stages(ops, n) + stages::op_stages(
            &ops@[n],
        ),
{
}

/// A layer of one source reads it, runs its chain and is reprojected to web
/// mercator at the end.
pub proof fn a_layer_runs_its_chain_and_is_reprojected(l: &LayerConfig)
    ensures
        stages::stages_of(l).len() > 0,
        stages::stages_of(l).last() == Stage::Reproject(Crs(3857)),
        l.source matches Some(source) ==> stages::stages_of(l).drop_last()
            == seq![Stage::Source(&source)] + stages::chain_stages(&l.ops, l.ops@.len() as int),
{
    if let Some(source) = l.source {
        assert(stages::stages_of(l).drop_last() =~= seq![Stage::Source(&source)]
            + stages::chain_stages(&l.ops, l.ops@.len() as int));
    }
}

// Zones.

/// A place is one in degrees that the grid has where its longitude is at
/// most 180, its latitude at most 90 and below the edge of web mercator,
/// north and south, east and west alike.
pub proof fn places_have_degrees(lon: Real, lat: Real)
    requires
        !lon.nan(),
        !lat.nan(),
    ensures
        (zones::degree_fault(lon, lat) is None) == (-0x4066_8000_0000_0000 <= lon.place()
            <= 0x4066_8000_0000_0000 && -0x4055_43d7_0a3d_70a4 < lat.place()
            < 0x4055_43d7_0a3d_70a4),
{
}

/// A position is its longitude and then its latitude, projected; further
/// numbers are left out.
pub proof fn a_position_is_longitude_and_latitude<F: Fn(Real, Real) -> Option<Coord>>(
    f: F,
    lon: JsonNumber,
    lat: JsonNumber,
    more: Seq<JsonModel>,
    c: Coord,
)
    requires
        zones::is_projection(f),
        lon.real.finite(),
        lat.real.finite(),
        zones::degree_fault(lon.real, lat.real) is None,
        f.ensures((lon.real, lat.real), Some(c)),
        c.x.finite(),
        c.y.finite(),
    ensures
        zones::position(
            f,
            JsonModel::List(seq![JsonModel::Number(lon), JsonModel::Number(lat)] + more),
        ) == Ok::<Coord, ZoneFault>(c),
{
    let v = seq![JsonModel::Number(lon), JsonModel::Number(lat)] + more;
    assert(v[0] == JsonModel::Number(lon));
    assert(v[1] == JsonModel::Number(lat));
    let r = zones::projected(f, lon.real, lat.real);
    assert(f.ensures((lon.real, lat.real), r));
}

/// The positions of a ring stand in their order, each where its place is.
pub proof fn a_ring_is_its_positions<F: Fn(Real, Real) -> Option<Coord>>(
    f: F,
    v: Seq<JsonModel>,
    n: int,
    i: int,
)
    requires
        0 <= i < n <= v.len(),
        zones::positions(f, v, n) is Ok,
    ensures
        zones::positions(f, v, n)->Ok_0.len() == n,
        zones::position(f, v[i]) == Ok::<Coord, ZoneFault>(zones::positions(f, v, n)->Ok_0[i]),
    decreases n,
{
    if i < n - 1 {
        a_ring_is_its_positions(f, v, n - 1, i);
    } else if n > 1 {
        a_ring_is_its_positions(f, v, n - 1, 0);
    }
}

proof fn rings_are_listed<F: Fn(Real, Real) -> Option<Coord>>(
    f: F,
    v: Seq<JsonModel>,
    left: int,
    n: int,
    i: int,
)
    requires
        0 <= i < n <= v.len(),
        zones::rings(f, v, left, n) is Ok,
    ensures
        zones::rings(f, v, left, n)->Ok_0.0.len() == n,
        json::list_of(Some(v[i])) matches Some(ps) && ps.len() >= 4 && zones::positions(
            f,
            ps,
            ps.len() as int,
        ) == Ok::<Seq<Coord>, ZoneFault>(zones::rings(f, v, left, n)->Ok_0.0[i]),
    decreases n,
{
    if i < n - 1 {
        rings_are_listed(f, v, left, n - 1, i);
    } else if n > 1 {
        rings_are_listed(f, v, left, n - 1, 0);
    }
}

/// A polygon's first ring is its outer one and the others are its holes, in
/// order, each of four positions or more.
pub proof fn a_polygon_is_its_rings<F: Fn(Real, Real) -> Option<Coord>>(
    f: F,
    v: Seq<JsonModel>,
    left: int,
    i: int,
)
    requires
        0 <= i < v.len(),
        zones::polygon(f, JsonModel::List(v), left) is Ok,
    ensures
        ({
            let p = zones::polygon(f, JsonModel::List(v), left)->Ok_0.0;
            let own = if i == 0 {
                p.exterior
            } else {
                p.interiors[i - 1]
            };
            &&& p.interiors.len() == v.len() - 1
            &&& json::list_of(Some(v[i])) matches Some(ps) && ps.len() >= 4 && zones::positions(
                f,
                ps,
                ps.len() as int,
            ) == Ok::<Seq<Coord>, ZoneFault>(own)
        }),
{
    rings_are_listed(f, v, left, v.len() as int, i);
}

/// The zones of a request are those of its features, in order.
pub proof fn a_zone_is_that_of_its_feature<F: Fn(Real, Real) -> Option<Coord>>(
    f: F,
    v: Seq<JsonModel>,
    n: int,
    i: int,
)
    requires
        0 <= i < n <= v.len(),
        zones::zones(f, v, n) is Ok,
    ensures
        zones::zones(f, v, n)->Ok_0.0.len() == n,
        exists|left: int| (#[trigger] zones::zone(f, v[i], left)) is Ok && zones::zone(
            f,
            v[i],
            left,
        )->Ok_0.0 == zones::zones(f, v, n)->Ok_0.0[i],
    decreases n,
{
    if i < n - 1 {
        a_zone_is_that_of_its_feature(f, v, n - 1, i);
        let left = choose|left: int| (#[trigger] zones::zone(f, v[i], left)) is Ok && zones::zone(
            f,
            v[i],
            left,
        )->Ok_0.0 == zones::zones(f, v, n - 1)->Ok_0.0[i];
        assert(zones::zone(f, v[i], left) is Ok);
    } else {
        if n > 1 {
            a_zone_is_that_of_its_feature(f, v, n - 1, 0);
        }
        let left = zones::zones(f, v, n - 1)->Ok_0.1;
        assert(zones::zone(f, v[i], left) is Ok);
    }
}

/// A window is its lower left and its upper right corner, each where the
/// projection puts it.
pub proof fn a_window_is_its_two_corners<F: Fn(Real, Real) -> Option<Coord>>(
    f: F,
    b: Bbox,
    lo: Coord,
    hi: Coord,
)
    requires
        zones::is_projection(f),
        zones::window_asked(f, b) is Ok,
        f.ensures((b.min_x, b.min_y), Some(lo)),
        f.ensures((b.max_x, b.max_y), Some(hi)),
    ensures
        zones::window_asked(f, b) == Ok::<Bbox, WindowFault>(
            Bbox { min_x: lo.x, min_y: lo.y, max_x: hi.x, max_y: hi.y },
        ),
        b.min_x.place() < b.max_x.place(),
        b.min_y.place() < b.max_y.place(),
{
    let r = zones::projected(f, b.min_x, b.min_y);
    assert(f.ensures((b.min_x, b.min_y), r));
    let s = zones::projected(f, b.max_x, b.max_y);
    assert(f.ensures((b.max_x, b.max_y), s));
}

/// A request without corners is answered over the box around its zones, and
/// one with corners over theirs; either way its zones are all of them.
pub proof fn a_request_is_answered_over_its_window<F: Fn(Real, Real) -> Option<Coord>>(
    f: F,
    features: Seq<JsonModel>,
    corners: Option<Bbox>,
    resolution: Real,
)
    requires
        zones::planned(f, features, corners, resolution) is Ok,
    ensures
        ({
            let (gs, w) = zones::planned(f, features, corners, resolution)->Ok_0;
            &&& zones::zones(f, features, features.len() as int) is Ok
            &&& gs == zones::zones(f, features, features.len() as int)->Ok_0.0
            &&& corners is None ==> w == geometry::box_around(geometry::members_coords(gs))
            &&& corners matches Some(b) ==> zones::window_asked(f, b) == Ok::<Bbox, WindowFault>(w)
        }),
{
}

/// A zone's row is the reduction found for its own number, and that of no
/// pixel where none was.
pub proof fn a_zone_has_its_own_row(found: Seq<FeatureStatistics>, id: u64, i: int, from: int)
    requires
        0 <= from <= i <= found.len(),
        i < found.len() ==> found[i].feature_id == id,
        forall|j: int| from <= j < i ==> (#[trigger] found[j]).feature_id != id,
    ensures
        zones::row_of(found, id, from) == (if i < found.len() {
            found[i].statistics
        } else {
            zonal::no_pixels()
        }),
    decreases i - from,
{
    if from < i {
        a_zone_has_its_own_row(found, id, i, from + 1);
    }
}

} // verus!
