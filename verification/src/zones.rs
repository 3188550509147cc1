//! The zones of a request: areas in degrees, read off JSON within caps and
//! projected onto a layer's grid.

use vstd::prelude::*;

use crate::chunk;
use crate::chunk::{Coord, FeatureGeometry, GeometryModel, Polygon, PolygonModel};
use crate::geometry;
use crate::json;
use crate::json::{Json, JsonModel};
use crate::number::Real;
use crate::text;
use crate::window::Bbox;
use crate::zonal;
use crate::zonal::{FeatureStatistics, PixelStatistics};

verus! {

/// The zones that one request may name.
pub const MAX_FEATURES: usize = 256;

/// The positions that all zones of a request may hold.
pub const MAX_POSITIONS: usize = 20000;

/// 180 degrees.
pub const LONGITUDE_LIMIT: u64 = 0x4066800000000000;

/// 90 degrees.
pub const LATITUDE_LIMIT: u64 = 0x4056800000000000;

/// 85.06 degrees: from there on a latitude has no place on the grid.
pub const MERCATOR_LIMIT: u64 = 0x405543d70a3d70a4;

/// Why a zone cannot be read.
#[derive(Clone, Copy, Debug, PartialEq, Eq, Structural)]
pub enum ZoneFault {
    NotFeature,
    NoGeometry,
    NoType,
    NoCoordinates,
    /// A zone is a polygon or several.
    NotArea,
    PolygonsNotArray,
    NoPolygon,
    PolygonNotArray,
    NoRing,
    RingNotArray,
    /// A ring of so many positions cannot close.
    OpenRing(usize),
    /// The positions of all zones pass the cap.
    TooManyPositions,
    PositionNotArray,
    NotTwoNumbers,
    NotLongitude(Real),
    NotLatitude(Real),
    PastMercator(Real),
    /// The place does not project.
    Unprojected(Real, Real),
    /// The place projects off the grid.
    OffGrid(Real, Real),
}

/// What the projection that is handed in makes of a place.
pub open spec fn projected<F: Fn(Real, Real) -> Option<Coord>>(f: F, lon: Real, lat: Real) -> Option<
    Coord,
> {
    choose|r: Option<Coord>| f.ensures((lon, lat), r)
}

/// The projection can be asked of any place and always gives one answer.
pub open spec fn is_projection<F: Fn(Real, Real) -> Option<Coord>>(f: F) -> bool {
    &&& forall|a: Real, b: Real| #[trigger] f.requires((a, b))
    &&& forall|a: Real, b: Real, r: Option<Coord>, s: Option<Coord>| #[trigger]
        f.ensures((a, b), r) && #[trigger] f.ensures((a, b), s) ==> r == s
}

/// Why two numbers are no place in degrees that the grid has.
pub open spec fn degree_fault(lon: Real, lat: Real) -> Option<ZoneFault> {
    if !lon.finite() || (Real { bits: LONGITUDE_LIMIT }).below(lon.unsigned()) {
        Some(ZoneFault::NotLongitude(lon))
    } else if !lat.finite() || (Real { bits: LATITUDE_LIMIT }).below(lat.unsigned()) {
        Some(ZoneFault::NotLatitude(lat))
    } else if (Real { bits: MERCATOR_LIMIT }).at_most(lat.unsigned()) {
        Some(ZoneFault::PastMercator(lat))
    } else {
        None
    }
}

/// Hold two numbers to be a place in degrees that the grid has.
pub fn check_degrees(lon: Real, lat: Real) -> (r: Result<(), ZoneFault>)
    ensures
        match degree_fault(lon, lat) {
            Some(f) => r == Err::<(), ZoneFault>(f),
            None => r is Ok,
        },
{
    let far = Real { bits: LONGITUDE_LIMIT };
    let high = Real { bits: LATITUDE_LIMIT };
    let edge = Real { bits: MERCATOR_LIMIT };
    if !lon.is_finite() || far.lt(lon.abs()) {
        Err(ZoneFault::NotLongitude(lon))
    } else if !lat.is_finite() || high.lt(lat.abs()) {
        Err(ZoneFault::NotLatitude(lat))
    } else if edge.le(lat.abs()) {
        Err(ZoneFault::PastMercator(lat))
    } else {
        Ok(())
    }
}

/// A place on the grid.
pub open spec fn place<F: Fn(Real, Real) -> Option<Coord>>(f: F, lon: Real, lat: Real) -> Result<
    Coord,
    ZoneFault,
> {
    match projected(f, lon, lat) {
        None => Err(ZoneFault::Unprojected(lon, lat)),
        Some(c) => if c.x.finite() && c.y.finite() {
            Ok(c)
        } else {
            Err(ZoneFault::OffGrid(lon, lat))
        },
    }
}

/// Project a place onto the grid.
pub fn project<F: Fn(Real, Real) -> Option<Coord>>(f: &F, lon: Real, lat: Real) -> (r: Result<
    Coord,
    ZoneFault,
>)
    requires
        is_projection(*f),
    ensures
        r == place(*f, lon, lat),
{
    let c = f(lon, lat);
    assert(f.ensures((lon, lat), c));
    match c {
        None => Err(ZoneFault::Unprojected(lon, lat)),
        Some(c) => if c.x.is_finite() && c.y.is_finite() {
            Ok(c)
        } else {
            Err(ZoneFault::OffGrid(lon, lat))
        },
    }
}

/// The finite number at a place of a list.
pub open spec fn axis(v: Seq<JsonModel>, i: int) -> Option<Real> {
    if i < v.len() {
        match json::real_of(Some(v[i])) {
            Some(r) => if r.finite() {
                Some(r)
            } else {
                None
            },
            None => None,
        }
    } else {
        None
    }
}

/// A position on the grid.
pub open spec fn position<F: Fn(Real, Real) -> Option<Coord>>(f: F, j: JsonModel) -> Result<
    Coord,
    ZoneFault,
> {
    match json::list_of(Some(j)) {
        None => Err(ZoneFault::PositionNotArray),
        Some(v) => match (axis(v, 0), axis(v, 1)) {
            (Some(lon), Some(lat)) => match degree_fault(lon, lat) {
                Some(e) => Err(e),
                None => place(f, lon, lat),
            },
            _ => Err(ZoneFault::NotTwoNumbers),
        },
    }
}

/// The first `n` positions of a ring, or the first fault among them.
pub open spec fn positions<F: Fn(Real, Real) -> Option<Coord>>(
    f: F,
    v: Seq<JsonModel>,
    n: int,
) -> Result<Seq<Coord>, ZoneFault>
    decreases n,
{
    if n <= 0 {
        Ok(Seq::empty())
    } else {
        match positions(f, v, n - 1) {
            Err(e) => Err(e),
            Ok(before) => match position(f, v[n - 1]) {
                Ok(c) => Ok(before.push(c)),
                Err(e) => Err(e),
            },
        }
    }
}

/// A ring, and how many positions are left after it.
pub open spec fn ring<F: Fn(Real, Real) -> Option<Coord>>(f: F, j: JsonModel, left: int) -> Result<
    (Seq<Coord>, int),
    ZoneFault,
> {
    match json::list_of(Some(j)) {
        None => Err(ZoneFault::RingNotArray),
        Some(v) => if v.len() < 4 {
            Err(ZoneFault::OpenRing(v.len() as usize))
        } else if v.len() > left {
            Err(ZoneFault::TooManyPositions)
        } else {
            match positions(f, v, v.len() as int) {
                Ok(cs) => Ok((cs, left - v.len())),
                Err(e) => Err(e),
            }
        },
    }
}

/// The first `n` rings of a polygon, in order.
pub open spec fn rings<F: Fn(Real, Real) -> Option<Coord>>(
    f: F,
    v: Seq<JsonModel>,
    left: int,
    n: int,
) -> Result<(Seq<Seq<Coord>>, int), ZoneFault>
    decreases n,
{
    if n <= 0 {
        Ok((Seq::empty(), left))
    } else {
        match rings(f, v, left, n - 1) {
            Err(e) => Err(e),
            Ok((before, rest)) => match ring(f, v[n - 1], rest) {
                Ok((cs, more)) => Ok((before.push(cs), more)),
                Err(e) => Err(e),
            },
        }
    }
}

/// A polygon: its outer ring and its holes.
pub open spec fn polygon<F: Fn(Real, Real) -> Option<Coord>>(
    f: F,
    j: JsonModel,
    left: int,
) -> Result<(PolygonModel, int), ZoneFault> {
    match json::list_of(Some(j)) {
        None => Err(ZoneFault::PolygonNotArray),
        Some(v) => if v.len() == 0 {
            Err(ZoneFault::NoRing)
        } else {
            match rings(f, v, left, v.len() as int) {
                Err(e) => Err(e),
                Ok((rs, rest)) => Ok(
                    (PolygonModel { exterior: rs[0], interiors: rs.skip(1) }, rest),
                ),
            }
        },
    }
}

/// The first `n` polygons of several.
pub open spec fn polygons<F: Fn(Real, Real) -> Option<Coord>>(
    f: F,
    v: Seq<JsonModel>,
    left: int,
    n: int,
) -> Result<(Seq<PolygonModel>, int), ZoneFault>
    decreases n,
{
    if n <= 0 {
        Ok((Seq::empty(), left))
    } else {
        match polygons(f, v, left, n - 1) {
            Err(e) => Err(e),
            Ok((before, rest)) => match polygon(f, v[n - 1], rest) {
                Ok((p, more)) => Ok((before.push(p), more)),
                Err(e) => Err(e),
            },
        }
    }
}

/// The area that a geometry names.
pub open spec fn area<F: Fn(Real, Real) -> Option<Coord>>(f: F, j: JsonModel, left: int) -> Result<
    (GeometryModel, int),
    ZoneFault,
> {
    match json::text_of(j.member("type"@)) {
        None => Err(ZoneFault::NoType),
        Some(kind) => match j.member("coordinates"@) {
            None => Err(ZoneFault::NoCoordinates),
            Some(cs) => if kind == "Polygon"@ {
                match polygon(f, cs, left) {
                    Ok((p, rest)) => Ok((GeometryModel::Polygon(p), rest)),
                    Err(e) => Err(e),
                }
            } else if kind == "MultiPolygon"@ {
                match json::list_of(Some(cs)) {
                    None => Err(ZoneFault::PolygonsNotArray),
                    Some(v) => if v.len() == 0 {
                        Err(ZoneFault::NoPolygon)
                    } else {
                        match polygons(f, v, left, v.len() as int) {
                            Ok((ps, rest)) => Ok((GeometryModel::MultiPolygon(ps), rest)),
                            Err(e) => Err(e),
                        }
                    },
                }
            } else {
                Err(ZoneFault::NotArea)
            },
        },
    }
}

/// The zone that a feature names.
pub open spec fn zone<F: Fn(Real, Real) -> Option<Coord>>(f: F, j: JsonModel, left: int) -> Result<
    (GeometryModel, int),
    ZoneFault,
> {
    if json::text_of(j.member("type"@)) != Some("Feature"@) {
        Err(ZoneFault::NotFeature)
    } else {
        match j.member("geometry"@) {
            None => Err(ZoneFault::NoGeometry),
            Some(g) => if g is Null {
                Err(ZoneFault::NoGeometry)
            } else {
                area(f, g, left)
            },
        }
    }
}

/// The first `n` zones of a request, and how many positions are left; or
/// the first fault, with the place of its feature.
pub open spec fn zones<F: Fn(Real, Real) -> Option<Coord>>(
    f: F,
    v: Seq<JsonModel>,
    n: int,
) -> Result<(Seq<GeometryModel>, int), (usize, ZoneFault)>
    decreases n,
{
    if n <= 0 {
        Ok((Seq::empty(), MAX_POSITIONS as int))
    } else {
        match zones(f, v, n - 1) {
            Err(e) => Err(e),
            Ok((before, left)) => match zone(f, v[n - 1], left) {
                Ok((g, rest)) => Ok((before.push(g), rest)),
                Err(e) => Err(((n - 1) as usize, e)),
            },
        }
    }
}

// Reading.

fn axis_of(v: &Vec<Json>, i: usize) -> (r: Option<Real>)
    ensures
        r == axis(json::list_model(v@), i as int),
{
    if i >= v.len() {
        return None;
    }
    assert(json::list_model(v@)[i as int] == v@[i as int]@);
    match json::as_real(Some(&v[i])) {
        Some(r) => if r.is_finite() {
            Some(r)
        } else {
            None
        },
        None => None,
    }
}

fn read_position<F: Fn(Real, Real) -> Option<Coord>>(f: &F, j: &Json) -> (r: Result<
    Coord,
    ZoneFault,
>)
    requires
        is_projection(*f),
    ensures
        r == position(*f, j@),
{
    match json::as_list(Some(j)) {
        None => Err(ZoneFault::PositionNotArray),
        Some(v) => match (axis_of(v, 0), axis_of(v, 1)) {
            (Some(lon), Some(lat)) => match check_degrees(lon, lat) {
                Err(e) => Err(e),
                Ok(()) => project(f, lon, lat),
            },
            _ => Err(ZoneFault::NotTwoNumbers),
        },
    }
}

proof fn a_bad_position_stays<F: Fn(Real, Real) -> Option<Coord>>(
    f: F,
    v: Seq<JsonModel>,
    i: int,
    n: int,
)
    requires
        0 <= i <= n,
        positions(f, v, i) is Err,
    ensures
        positions(f, v, n) == positions(f, v, i),
    decreases n,
{
    if i < n {
        a_bad_position_stays(f, v, i, n - 1);
    }
}

fn read_ring<F: Fn(Real, Real) -> Option<Coord>>(f: &F, j: &Json, left: usize) -> (r: Result<
    (Vec<Coord>, usize),
    ZoneFault,
>)
    requires
        is_projection(*f),
    ensures
        match ring(*f, j@, left as int) {
            Ok((cs, rest)) => r matches Ok((v, n)) && v@ == cs && n == rest,
            Err(e) => r == Err::<(Vec<Coord>, usize), ZoneFault>(e),
        },
{
    let v = match json::as_list(Some(j)) {
        None => {
            return Err(ZoneFault::RingNotArray);
        },
        Some(v) => v,
    };
    let ghost ms = json::list_model(v@);
    let n: usize = v.len();
    if n < 4 {
        return Err(ZoneFault::OpenRing(n));
    }
    if n > left {
        return Err(ZoneFault::TooManyPositions);
    }
    let mut out: Vec<Coord> = Vec::new();
    for i in 0..n
        invariant
            n == v@.len(),
            4 <= n <= left,
            ms == json::list_model(v@),
            json::list_of(Some(j@)) == Some(ms),
            is_projection(*f),
            positions(*f, ms, i as int) == Ok::<Seq<Coord>, ZoneFault>(out@),
    {
        assert(ms[i as int] == v@[i as int]@);
        match read_position(f, &v[i]) {
            Ok(c) => {
                out.push(c);
            },
            Err(e) => {
                proof {
                    a_bad_position_stays(*f, ms, i + 1, n as int);
                }
                return Err(e);
            },
        }
    }
    Ok((out, left - n))
}

proof fn a_bad_ring_stays<F: Fn(Real, Real) -> Option<Coord>>(
    f: F,
    v: Seq<JsonModel>,
    left: int,
    i: int,
    n: int,
)
    requires
        0 <= i <= n,
        rings(f, v, left, i) is Err,
    ensures
        rings(f, v, left, n) == rings(f, v, left, i),
    decreases n,
{
    if i < n {
        a_bad_ring_stays(f, v, left, i, n - 1);
    }
}

fn read_polygon<F: Fn(Real, Real) -> Option<Coord>>(f: &F, j: &Json, left: usize) -> (r: Result<
    (Polygon, usize),
    ZoneFault,
>)
    requires
        is_projection(*f),
    ensures
        match polygon(*f, j@, left as int) {
            Ok((p, rest)) => r matches Ok((q, n)) && q@ == p && n == rest,
            Err(e) => r == Err::<(Polygon, usize), ZoneFault>(e),
        },
{
    let v = match json::as_list(Some(j)) {
        None => {
            return Err(ZoneFault::PolygonNotArray);
        },
        Some(v) => v,
    };
    let ghost ms = json::list_model(v@);
    let n: usize = v.len();
    if n == 0 {
        return Err(ZoneFault::NoRing);
    }
    let mut out: Vec<Vec<Coord>> = Vec::new();
    let mut rest: usize = left;
    assert(chunk::lines_model(out@) =~= Seq::empty());
    for i in 0..n
        invariant
            n == v@.len(),
            n > 0,
            ms == json::list_model(v@),
            json::list_of(Some(j@)) == Some(ms),
            is_projection(*f),
            out@.len() == i,
            rings(*f, ms, left as int, i as int) == Ok::<(Seq<Seq<Coord>>, int), ZoneFault>(
                (chunk::lines_model(out@), rest as int),
            ),
    {
        assert(ms[i as int] == v@[i as int]@);
        match read_ring(f, &v[i], rest) {
            Ok((cs, more)) => {
                let ghost before = chunk::lines_model(out@);
                let ghost added = cs@;
                out.push(cs);
                rest = more;
                assert(chunk::lines_model(out@) =~= before.push(added));
            },
            Err(e) => {
                proof {
                    a_bad_ring_stays(*f, ms, left as int, i + 1, n as int);
                }
                return Err(e);
            },
        }
    }
    let ghost all = chunk::lines_model(out@);
    let exterior = out.remove(0);
    assert(exterior@ == all[0]);
    assert(chunk::lines_model(out@) =~= all.skip(1));
    Ok((Polygon { exterior, interiors: out }, rest))
}

proof fn a_bad_polygon_stays<F: Fn(Real, Real) -> Option<Coord>>(
    f: F,
    v: Seq<JsonModel>,
    left: int,
    i: int,
    n: int,
)
    requires
        0 <= i <= n,
        polygons(f, v, left, i) is Err,
    ensures
        polygons(f, v, left, n) == polygons(f, v, left, i),
    decreases n,
{
    if i < n {
        a_bad_polygon_stays(f, v, left, i, n - 1);
    }
}

fn read_polygons<F: Fn(Real, Real) -> Option<Coord>>(
    f: &F,
    v: &Vec<Json>,
    left: usize,
) -> (r: Result<(Vec<Polygon>, usize), ZoneFault>)
    requires
        is_projection(*f),
    ensures
        match polygons(*f, json::list_model(v@), left as int, v@.len() as int) {
            Ok((ps, rest)) => r matches Ok((qs, n)) && chunk::polygons_model(qs@) == ps && n == rest,
            Err(e) => r == Err::<(Vec<Polygon>, usize), ZoneFault>(e),
        },
{
    let ghost ms = json::list_model(v@);
    let n: usize = v.len();
    let mut out: Vec<Polygon> = Vec::new();
    let mut rest: usize = left;
    assert(chunk::polygons_model(out@) =~= Seq::empty());
    for i in 0..n
        invariant
            n == v@.len(),
            ms == json::list_model(v@),
            is_projection(*f),
            polygons(*f, ms, left as int, i as int) == Ok::<(Seq<PolygonModel>, int), ZoneFault>(
                (chunk::polygons_model(out@), rest as int),
            ),
    {
        assert(ms[i as int] == v@[i as int]@);
        match read_polygon(f, &v[i], rest) {
            Ok((p, more)) => {
                let ghost before = chunk::polygons_model(out@);
                let ghost added = p@;
                out.push(p);
                rest = more;
                assert(chunk::polygons_model(out@) =~= before.push(added));
            },
            Err(e) => {
                proof {
                    a_bad_polygon_stays(*f, ms, left as int, i + 1, n as int);
                }
                return Err(e);
            },
        }
    }
    Ok((out, rest))
}

fn read_area<F: Fn(Real, Real) -> Option<Coord>>(f: &F, j: &Json, left: usize) -> (r: Result<
    (FeatureGeometry, usize),
    ZoneFault,
>)
    requires
        is_projection(*f),
    ensures
        match area(*f, j@, left as int) {
            Ok((g, rest)) => r matches Ok((h, n)) && h@ == g && n == rest,
            Err(e) => r == Err::<(FeatureGeometry, usize), ZoneFault>(e),
        },
{
    let kind = match json::as_text(json::member(Some(j), "type")) {
        None => {
            return Err(ZoneFault::NoType);
        },
        Some(k) => k,
    };
    let cs = match json::member(Some(j), "coordinates") {
        None => {
            return Err(ZoneFault::NoCoordinates);
        },
        Some(c) => c,
    };
    if text::same_text(kind.as_str(), "Polygon") {
        match read_polygon(f, cs, left) {
            Ok((p, rest)) => Ok((FeatureGeometry::Polygon(p), rest)),
            Err(e) => Err(e),
        }
    } else if text::same_text(kind.as_str(), "MultiPolygon") {
        match json::as_list(Some(cs)) {
            None => Err(ZoneFault::PolygonsNotArray),
            Some(v) => {
                if v.len() == 0 {
                    return Err(ZoneFault::NoPolygon);
                }
                match read_polygons(f, v, left) {
                    Ok((ps, rest)) => Ok((FeatureGeometry::MultiPolygon(ps), rest)),
                    Err(e) => Err(e),
                }
            },
        }
    } else {
        Err(ZoneFault::NotArea)
    }
}

fn read_zone<F: Fn(Real, Real) -> Option<Coord>>(f: &F, j: &Json, left: usize) -> (r: Result<
    (FeatureGeometry, usize),
    ZoneFault,
>)
    requires
        is_projection(*f),
    ensures
        match zone(*f, j@, left as int) {
            Ok((g, rest)) => r matches Ok((h, n)) && h@ == g && n == rest,
            Err(e) => r == Err::<(FeatureGeometry, usize), ZoneFault>(e),
        },
{
    let is_feature: bool = match json::as_text(json::member(Some(j), "type")) {
        Some(t) => text::same_text(t.as_str(), "Feature"),
        None => false,
    };
    if !is_feature {
        return Err(ZoneFault::NotFeature);
    }
    match json::member(Some(j), "geometry") {
        None => Err(ZoneFault::NoGeometry),
        Some(g) => match g {
            Json::Null => Err(ZoneFault::NoGeometry),
            _ => read_area(f, g, left),
        },
    }
}

proof fn a_bad_zone_stays<F: Fn(Real, Real) -> Option<Coord>>(
    f: F,
    v: Seq<JsonModel>,
    i: int,
    n: int,
)
    requires
        0 <= i <= n,
        zones(f, v, i) is Err,
    ensures
        zones(f, v, n) == zones(f, v, i),
    decreases n,
{
    if i < n {
        a_bad_zone_stays(f, v, i, n - 1);
    }
}

/// Read the zones of a request, in order. The first fault comes back with
/// the place of its feature.
pub fn parse_zones<F: Fn(Real, Real) -> Option<Coord>>(f: &F, features: &Vec<Json>) -> (r: Result<
    Vec<FeatureGeometry>,
    (usize, ZoneFault),
>)
    requires
        is_projection(*f),
    ensures
        match zones(*f, json::list_model(features@), features@.len() as int) {
            Ok((gs, _)) => r matches Ok(v) && chunk::geometries_model(v@) == gs,
            Err(e) => r == Err::<Vec<FeatureGeometry>, (usize, ZoneFault)>(e),
        },
{
    let ghost ms = json::list_model(features@);
    let n: usize = features.len();
    let mut out: Vec<FeatureGeometry> = Vec::new();
    let mut left: usize = MAX_POSITIONS;
    assert(chunk::geometries_model(out@) =~= Seq::empty());
    for i in 0..n
        invariant
            n == features@.len(),
            ms == json::list_model(features@),
            is_projection(*f),
            zones(*f, ms, i as int) == Ok::<(Seq<GeometryModel>, int), (usize, ZoneFault)>(
                (chunk::geometries_model(out@), left as int),
            ),
    {
        assert(ms[i as int] == features@[i as int]@);
        match read_zone(f, &features[i], left) {
            Ok((g, rest)) => {
                let ghost before = chunk::geometries_model(out@);
                let ghost added = g@;
                out.push(g);
                left = rest;
                assert(chunk::geometries_model(out@) =~= before.push(added));
            },
            Err(e) => {
                proof {
                    a_bad_zone_stays(*f, ms, i + 1, n as int);
                }
                return Err((i, e));
            },
        }
    }
    Ok(out)
}

// Laws.

proof fn positions_count<F: Fn(Real, Real) -> Option<Coord>>(f: F, v: Seq<JsonModel>, n: int)
    requires
        0 <= n,
        positions(f, v, n) is Ok,
    ensures
        positions(f, v, n)->Ok_0.len() == n,
    decreases n,
{
    if n > 0 {
        positions_count(f, v, n - 1);
    }
}

proof fn rings_spend<F: Fn(Real, Real) -> Option<Coord>>(
    f: F,
    v: Seq<JsonModel>,
    left: int,
    n: int,
)
    requires
        0 <= n,
        0 <= left,
        rings(f, v, left, n) is Ok,
    ensures
        ({
            let (rs, rest) = rings(f, v, left, n)->Ok_0;
            &&& rs.len() == n
            &&& 0 <= rest
            &&& geometry::flat(rs).len() + rest == left
        }),
    decreases n,
{
    if n > 0 {
        rings_spend(f, v, left, n - 1);
        let (before, rest) = rings(f, v, left, n - 1)->Ok_0;
        let list = json::list_of(Some(v[n - 1]))->0;
        positions_count(f, list, list.len() as int);
        let (rs, _) = rings(f, v, left, n)->Ok_0;
        assert(rs.drop_last() =~= before);
    }
}

proof fn polygon_spends<F: Fn(Real, Real) -> Option<Coord>>(f: F, j: JsonModel, left: int)
    requires
        0 <= left,
        polygon(f, j, left) is Ok,
    ensures
        ({
            let (p, rest) = polygon(f, j, left)->Ok_0;
            0 <= rest && geometry::polygon_coords(p).len() + rest == left
        }),
{
    let v = json::list_of(Some(j))->0;
    rings_spend(f, v, left, v.len() as int);
    let (rs, _) = rings(f, v, left, v.len() as int)->Ok_0;
    flat_splits(rs);
}

proof fn flat_splits(rs: Seq<Seq<Coord>>)
    requires
        rs.len() > 0,
    ensures
        geometry::flat(rs).len() == rs[0].len() + geometry::flat(rs.skip(1)).len(),
    decreases rs.len(),
{
    if rs.len() == 1 {
        assert(rs.skip(1) =~= Seq::empty());
        assert(rs.drop_last() =~= Seq::empty());
    } else {
        flat_splits(rs.drop_last());
        assert(rs.skip(1).drop_last() =~= rs.drop_last().skip(1));
        assert(rs.skip(1).last() == rs.last());
    }
}

proof fn polygons_spend<F: Fn(Real, Real) -> Option<Coord>>(
    f: F,
    v: Seq<JsonModel>,
    left: int,
    n: int,
)
    requires
        0 <= n,
        0 <= left,
        polygons(f, v, left, n) is Ok,
    ensures
        ({
            let (ps, rest) = polygons(f, v, left, n)->Ok_0;
            0 <= rest && geometry::polygons_coords(ps).len() + rest == left
        }),
    decreases n,
{
    if n > 0 {
        polygons_spend(f, v, left, n - 1);
        let (before, rest) = polygons(f, v, left, n - 1)->Ok_0;
        polygon_spends(f, v[n - 1], rest);
        let (ps, _) = polygons(f, v, left, n)->Ok_0;
        assert(ps.drop_last() =~= before);
    }
}

/// The zones of a request that is taken hold no more positions than the
/// cap, all together.
pub proof fn the_position_cap_holds<F: Fn(Real, Real) -> Option<Coord>>(
    f: F,
    v: Seq<JsonModel>,
    n: int,
)
    requires
        0 <= n,
        zones(f, v, n) is Ok,
    ensures
        ({
            let (gs, left) = zones(f, v, n)->Ok_0;
            &&& gs.len() == n
            &&& 0 <= left
            &&& geometry::members_coords(gs).len() + left == MAX_POSITIONS
        }),
    decreases n,
{
    if n > 0 {
        the_position_cap_holds(f, v, n - 1);
        let (before, left) = zones(f, v, n - 1)->Ok_0;
        let g = v[n - 1].member("geometry"@)->0;
        let cs = g.member("coordinates"@)->0;
        let kind = json::text_of(g.member("type"@))->0;
        if kind == "Polygon"@ {
            polygon_spends(f, cs, left);
        } else {
            let list = json::list_of(Some(cs))->0;
            polygons_spend(f, list, left, list.len() as int);
        }
        let (gs, _) = zones(f, v, n)->Ok_0;
        assert(gs.drop_last() =~= before);
        assert(geometry::members_coords(gs) == geometry::members_coords(before)
            + geometry::coords_of(gs.last()));
    } else {
        assert(geometry::members_coords(Seq::empty()).len() == 0);
    }
}

/// Every zone that is taken is an area.
pub proof fn zones_are_areas<F: Fn(Real, Real) -> Option<Coord>>(f: F, v: Seq<JsonModel>, n: int)
    requires
        0 <= n,
        zones(f, v, n) is Ok,
    ensures
        forall|k: int|
            0 <= k < n ==> ((#[trigger] zones(f, v, n)->Ok_0.0[k]) is Polygon || zones(
                f,
                v,
                n,
            )->Ok_0.0[k] is MultiPolygon),
        zones(f, v, n)->Ok_0.0.len() == n,
    decreases n,
{
    if n > 0 {
        zones_are_areas(f, v, n - 1);
    }
}

// The window of a request.

/// Why a window cannot be reduced over.
#[derive(Clone, Copy, Debug, PartialEq, Eq, Structural)]
pub enum WindowFault {
    /// A corner is no place.
    Corner(ZoneFault),
    /// The corners enclose nothing.
    NoArea,
    /// There is neither a window nor a zone.
    NoZones,
    /// The zones hold no coordinate.
    NoCoordinates,
    /// The zones enclose nothing.
    FlatZones,
}

/// The window that two corners in degrees name.
pub open spec fn window_asked<F: Fn(Real, Real) -> Option<Coord>>(f: F, b: Bbox) -> Result<
    Bbox,
    WindowFault,
> {
    if degree_fault(b.min_x, b.min_y) is Some {
        Err(WindowFault::Corner(degree_fault(b.min_x, b.min_y)->0))
    } else if degree_fault(b.max_x, b.max_y) is Some {
        Err(WindowFault::Corner(degree_fault(b.max_x, b.max_y)->0))
    } else if b.max_x.at_most(b.min_x) || b.max_y.at_most(b.min_y) {
        Err(WindowFault::NoArea)
    } else {
        match (place(f, b.min_x, b.min_y), place(f, b.max_x, b.max_y)) {
            (Err(e), _) => Err(WindowFault::Corner(e)),
            (_, Err(e)) => Err(WindowFault::Corner(e)),
            (Ok(lo), Ok(hi)) => Ok(Bbox { min_x: lo.x, min_y: lo.y, max_x: hi.x, max_y: hi.y }),
        }
    }
}

/// The window that two corners in degrees name, on the grid.
pub fn window_bbox<F: Fn(Real, Real) -> Option<Coord>>(f: &F, b: &Bbox) -> (r: Result<
    Bbox,
    WindowFault,
>)
    requires
        is_projection(*f),
    ensures
        r == window_asked(*f, *b),
{
    if let Err(e) = check_degrees(b.min_x, b.min_y) {
        return Err(WindowFault::Corner(e));
    }
    if let Err(e) = check_degrees(b.max_x, b.max_y) {
        return Err(WindowFault::Corner(e));
    }
    if b.max_x.le(b.min_x) || b.max_y.le(b.min_y) {
        return Err(WindowFault::NoArea);
    }
    let lo = match project(f, b.min_x, b.min_y) {
        Ok(c) => c,
        Err(e) => {
            return Err(WindowFault::Corner(e));
        },
    };
    match project(f, b.max_x, b.max_y) {
        Ok(hi) => Ok(Bbox { min_x: lo.x, min_y: lo.y, max_x: hi.x, max_y: hi.y }),
        Err(e) => Err(WindowFault::Corner(e)),
    }
}

/// The window that zones cover.
pub open spec fn zones_window(gs: Seq<GeometryModel>) -> Result<Bbox, WindowFault> {
    let cs = geometry::members_coords(gs);
    let b = geometry::box_around(cs);
    if gs.len() == 0 {
        Err(WindowFault::NoZones)
    } else if cs.len() == 0 {
        Err(WindowFault::NoCoordinates)
    } else if b.max_x.at_most(b.min_x) || b.max_y.at_most(b.min_y) {
        Err(WindowFault::FlatZones)
    } else {
        Ok(b)
    }
}

/// The window that zones cover, where a request names none.
pub fn zones_envelope(zones: &Vec<FeatureGeometry>) -> (r: Result<Bbox, WindowFault>)
    ensures
        r == zones_window(chunk::geometries_model(zones@)),
{
    let ghost gs = chunk::geometries_model(zones@);
    if zones.len() == 0 {
        return Err(WindowFault::NoZones);
    }
    let mut cs: Vec<Coord> = Vec::new();
    assert(gs.take(0) =~= Seq::empty());
    for i in 0..zones.len()
        invariant
            gs == chunk::geometries_model(zones@),
            cs@ == geometry::members_coords(gs.take(i as int)),
    {
        let ghost before = cs@;
        geometry::collect_coords(&zones[i], &mut cs);
        assert(gs.take(i + 1).drop_last() =~= gs.take(i as int));
        assert(gs.take(i + 1).last() == zones@[i as int]@);
    }
    assert(gs.take(gs.len() as int) =~= gs);
    if cs.len() == 0 {
        return Err(WindowFault::NoCoordinates);
    }
    let b = geometry::geometry_envelope(&FeatureGeometry::MultiPoint(cs));
    if b.max_x.le(b.min_x) || b.max_y.le(b.min_y) {
        return Err(WindowFault::FlatZones);
    }
    Ok(b)
}

/// Hold a request's numbers to its caps: how many features it names, and a
/// resolution that is a number above zero.
#[derive(Clone, Copy, Debug, PartialEq, Eq, Structural)]
pub enum RequestFault {
    TooManyFeatures(usize),
    BadResolution(Real),
}

pub fn check_request(features: usize, resolution: Real) -> (r: Result<(), RequestFault>)
    ensures
        r == (if features > MAX_FEATURES {
            Err::<(), RequestFault>(RequestFault::TooManyFeatures(features))
        } else if !resolution.finite() || resolution.at_most(Real { bits: 0 }) {
            Err(RequestFault::BadResolution(resolution))
        } else {
            Ok(())
        }),
{
    if features > MAX_FEATURES {
        Err(RequestFault::TooManyFeatures(features))
    } else if !resolution.is_finite() || resolution.le(Real::zero()) {
        Err(RequestFault::BadResolution(resolution))
    } else {
        Ok(())
    }
}

/// Why a request is refused before anything is pulled.
#[derive(Clone, Copy, Debug, PartialEq, Eq, Structural)]
pub enum PlanFault {
    Request(RequestFault),
    /// The feature at this place is no zone.
    Zone(usize, ZoneFault),
    Window(WindowFault),
}

/// The zones and the window that a request asks for.
#[derive(Debug)]
pub struct ZonePlan {
    /// None for a reduction of the whole window.
    pub zones: Vec<FeatureGeometry>,
    pub window: Bbox,
}

/// The zones and the window of a request, or why it is refused: its caps
/// first, then its zones, then its window.
pub open spec fn planned<F: Fn(Real, Real) -> Option<Coord>>(
    f: F,
    features: Seq<JsonModel>,
    corners: Option<Bbox>,
    resolution: Real,
) -> Result<(Seq<GeometryModel>, Bbox), PlanFault> {
    if features.len() > MAX_FEATURES {
        Err(PlanFault::Request(RequestFault::TooManyFeatures(features.len() as usize)))
    } else if !resolution.finite() || resolution.at_most(Real { bits: 0 }) {
        Err(PlanFault::Request(RequestFault::BadResolution(resolution)))
    } else {
        match zones(f, features, features.len() as int) {
            Err((i, e)) => Err(PlanFault::Zone(i, e)),
            Ok((gs, _)) => {
                let window = match corners {
                    Some(b) => window_asked(f, b),
                    None => zones_window(gs),
                };
                match window {
                    Ok(w) => Ok((gs, w)),
                    Err(e) => Err(PlanFault::Window(e)),
                }
            },
        }
    }
}

/// Read a request: its features, its window's corners in degrees where it
/// names them, and its resolution.
pub fn plan_request<F: Fn(Real, Real) -> Option<Coord>>(
    f: &F,
    features: &Vec<Json>,
    corners: Option<Bbox>,
    resolution: Real,
) -> (r: Result<ZonePlan, PlanFault>)
    requires
        is_projection(*f),
    ensures
        match planned(*f, json::list_model(features@), corners, resolution) {
            Ok((gs, w)) => r matches Ok(p) && chunk::geometries_model(p.zones@) == gs && p.window
                == w,
            Err(e) => r == Err::<ZonePlan, PlanFault>(e),
        },
{
    if let Err(e) = check_request(features.len(), resolution) {
        return Err(PlanFault::Request(e));
    }
    let zones = match parse_zones(f, features) {
        Ok(zones) => zones,
        Err((i, e)) => {
            return Err(PlanFault::Zone(i, e));
        },
    };
    let window = match corners {
        Some(b) => window_bbox(f, &b),
        None => zones_envelope(&zones),
    };
    match window {
        Ok(window) => Ok(ZonePlan { zones, window }),
        Err(e) => Err(PlanFault::Window(e)),
    }
}

/// A request that is taken names no more zones than may be, each of them an
/// area, and a resolution above zero.
pub proof fn planned_requests_keep_the_caps<F: Fn(Real, Real) -> Option<Coord>>(
    f: F,
    features: Seq<JsonModel>,
    corners: Option<Bbox>,
    resolution: Real,
)
    requires
        planned(f, features, corners, resolution) is Ok,
    ensures
        ({
            let (gs, _) = planned(f, features, corners, resolution)->Ok_0;
            &&& gs.len() == features.len()
            &&& gs.len() <= MAX_FEATURES
            &&& geometry::members_coords(gs).len() <= MAX_POSITIONS
            &&& (Real { bits: 0 }).below(resolution)
            &&& corners is None ==> gs.len() > 0
        }),
{
    the_position_cap_holds(f, features, features.len() as int);
}

// Rows.

/// The reduction of a zone by its place: none of the rows has it, it caught
/// no pixel.
pub open spec fn row_of(found: Seq<FeatureStatistics>, id: u64, from: int) -> PixelStatistics
    decreases found.len() - from,
{
    if from >= found.len() {
        zonal::no_pixels()
    } else if found[from].feature_id == id {
        found[from].statistics
    } else {
        row_of(found, id, from + 1)
    }
}

/// One reduction per zone of a request, in order.
pub fn zone_rows(found: &Vec<FeatureStatistics>, zones: usize) -> (r: Vec<PixelStatistics>)
    ensures
        r@ == Seq::new(zones as nat, |i: int| row_of(found@, i as u64, 0)),
{
    let mut out: Vec<PixelStatistics> = Vec::new();
    for i in 0..zones
        invariant
            out@ == Seq::new(i as nat, |k: int| row_of(found@, k as u64, 0)),
    {
        let id: u64 = i as u64;
        let mut at: usize = 0;
        while at < found.len() && found[at].feature_id != id
            invariant
                at <= found@.len(),
                row_of(found@, id, 0) == row_of(found@, id, at as int),
            decreases found@.len() - at,
        {
            at = at + 1;
        }
        if at < found.len() {
            out.push(found[at].statistics);
        } else {
            out.push(PixelStatistics::default());
        }
        assert(out@ =~= Seq::new((i + 1) as nat, |k: int| row_of(found@, k as u64, 0)));
    }
    out
}

/// A number that a row can carry: none where it is not finite.
pub fn finite(value: Real) -> (r: Option<Real>)
    ensures
        r == (if value.finite() {
            Some(value)
        } else {
            None
        }),
{
    if value.is_finite() {
        Some(value)
    } else {
        None
    }
}

} // verus!
