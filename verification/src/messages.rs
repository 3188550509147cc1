//! What a refused request or layer file is told.

use vstd::prelude::*;

use crate::config;
use crate::config::{Config, ConfigFault, ConfigFaultModel};
use crate::json;
use crate::json::{Json, JsonModel};
use crate::text;
use crate::zones::{
    PlanFault, RequestFault, WindowFault, ZoneFault, MAX_FEATURES, MAX_POSITIONS,
};

verus! {

/// The words of a message that come from outside: how the numbers of a fault
/// read, and why a place does not project.
#[derive(Debug)]
pub struct Words {
    pub first: String,
    pub second: String,
    pub why: String,
}

// Zones.

/// The type that a feature's geometry names.
pub open spec fn kind_of(feature: JsonModel) -> Seq<char> {
    match feature.member("geometry"@) {
        Some(geometry) => match geometry.member("type"@) {
            Some(JsonModel::Text(kind)) => kind,
            _ => Seq::empty(),
        },
        None => Seq::empty(),
    }
}

fn kind(feature: &Json) -> (r: String)
    ensures
        r@ == kind_of(feature@),
{
    let geometry = json::member(Some(feature), "geometry");
    match json::member(geometry, "type") {
        Some(Json::Text(kind)) => String::from_str(kind.as_str()),
        _ => String::new(),
    }
}

/// What is wrong with a zone whose geometry names a type.
pub open spec fn zone_text(f: ZoneFault, kind: Seq<char>, w: Words) -> Seq<char> {
    match f {
        ZoneFault::NotFeature => "it is not a Feature"@,
        ZoneFault::NoGeometry => "it has no geometry"@,
        ZoneFault::NoType => "the geometry names no type"@,
        ZoneFault::NoCoordinates => "the "@ + kind + " has no coordinates"@,
        ZoneFault::NotArea => "a zone cannot be a "@ + kind,
        ZoneFault::PolygonsNotArray => "the MultiPolygon coordinates are not an array"@,
        ZoneFault::NoPolygon => "the MultiPolygon holds no polygon"@,
        ZoneFault::PolygonNotArray => "the polygon coordinates are not an array"@,
        ZoneFault::NoRing => "the polygon holds no ring"@,
        ZoneFault::RingNotArray => "a ring is not an array"@,
        ZoneFault::OpenRing(n) => "a ring of "@ + text::decimal(n as nat)
            + " positions cannot close"@,
        ZoneFault::TooManyPositions => "the features hold more than the "@ + text::decimal(
            MAX_POSITIONS as nat,
        ) + " position cap"@,
        ZoneFault::PositionNotArray => "a position is not an array"@,
        ZoneFault::NotTwoNumbers => "a position needs two finite numbers"@,
        ZoneFault::NotLongitude(_) => "longitude "@ + w.first@ + " is not a longitude"@,
        ZoneFault::NotLatitude(_) => "latitude "@ + w.first@ + " is not a latitude"@,
        ZoneFault::PastMercator(_) => "latitude "@ + w.first@
            + " is past the 85.06 web mercator limit"@,
        ZoneFault::Unprojected(_, _) => "lon "@ + w.first@ + " lat "@ + w.second@
            + " does not project: "@ + w.why@,
        ZoneFault::OffGrid(_, _) => "lon "@ + w.first@ + " lat "@ + w.second@
            + " does not project: it leaves the grid"@,
    }
}

/// A word between two others.
fn around(a: &str, b: &str, c: &str) -> (r: String)
    ensures
        r@ == a@ + b@ + c@,
{
    let mut r = text::joined(a, b);
    r.append(c);
    r
}

/// What is wrong with a zone whose geometry names a type.
pub fn zone_message(f: &ZoneFault, kind: &str, w: &Words) -> (r: String)
    ensures
        r@ == zone_text(*f, kind@, *w),
{
    match f {
        ZoneFault::NotFeature => String::from_str("it is not a Feature"),
        ZoneFault::NoGeometry => String::from_str("it has no geometry"),
        ZoneFault::NoType => String::from_str("the geometry names no type"),
        ZoneFault::NoCoordinates => around("the ", kind, " has no coordinates"),
        ZoneFault::NotArea => text::joined("a zone cannot be a ", kind),
        ZoneFault::PolygonsNotArray => String::from_str(
            "the MultiPolygon coordinates are not an array",
        ),
        ZoneFault::NoPolygon => String::from_str("the MultiPolygon holds no polygon"),
        ZoneFault::PolygonNotArray => String::from_str("the polygon coordinates are not an array"),
        ZoneFault::NoRing => String::from_str("the polygon holds no ring"),
        ZoneFault::RingNotArray => String::from_str("a ring is not an array"),
        ZoneFault::OpenRing(n) => around(
            "a ring of ",
            text::decimal_text(*n as u64).as_str(),
            " positions cannot close",
        ),
        ZoneFault::TooManyPositions => around(
            "the features hold more than the ",
            text::decimal_text(MAX_POSITIONS as u64).as_str(),
            " position cap",
        ),
        ZoneFault::PositionNotArray => String::from_str("a position is not an array"),
        ZoneFault::NotTwoNumbers => String::from_str("a position needs two finite numbers"),
        ZoneFault::NotLongitude(_) => around(
            "longitude ",
            w.first.as_str(),
            " is not a longitude",
        ),
        ZoneFault::NotLatitude(_) => around("latitude ", w.first.as_str(), " is not a latitude"),
        ZoneFault::PastMercator(_) => around(
            "latitude ",
            w.first.as_str(),
            " is past the 85.06 web mercator limit",
        ),
        ZoneFault::Unprojected(_, _) => {
            let mut r = around("lon ", w.first.as_str(), " lat ");
            r.append(w.second.as_str());
            r.append(" does not project: ");
            r.append(w.why.as_str());
            r
        },
        ZoneFault::OffGrid(_, _) => {
            let mut r = around("lon ", w.first.as_str(), " lat ");
            r.append(w.second.as_str());
            r.append(" does not project: it leaves the grid");
            r
        },
    }
}

/// Why a request is refused.
pub open spec fn plan_text(f: PlanFault, features: Seq<JsonModel>, w: Words) -> Seq<char> {
    match f {
        PlanFault::Request(RequestFault::TooManyFeatures(n)) => text::decimal(n as nat)
            + " features is past the "@ + text::decimal(MAX_FEATURES as nat) + " cap"@,
        PlanFault::Request(RequestFault::BadResolution(_)) => "resolution "@ + w.first@
            + " is not a positive number"@,
        PlanFault::Zone(i, ZoneFault::NotFeature) => "feature "@ + text::decimal(i as nat)
            + " is not a Feature"@,
        PlanFault::Zone(i, ZoneFault::NoGeometry) => "feature "@ + text::decimal(i as nat)
            + " has no geometry"@,
        PlanFault::Zone(i, z) => "feature "@ + text::decimal(i as nat) + ": "@ + zone_text(
            z,
            kind_of(features[i as int]),
            w,
        ),
        PlanFault::Window(WindowFault::Corner(z)) => zone_text(z, Seq::empty(), w),
        PlanFault::Window(WindowFault::NoArea) => "the bbox has no area"@,
        PlanFault::Window(WindowFault::NoZones) => "a request with no features needs a bbox"@,
        PlanFault::Window(WindowFault::NoCoordinates) => "the features hold no coordinates"@,
        PlanFault::Window(WindowFault::FlatZones) => "the features envelope has no area"@,
    }
}

/// Why a request with these features is refused.
pub fn plan_message(f: &PlanFault, features: &Vec<Json>, w: &Words) -> (r: String)
    requires
        *f matches PlanFault::Zone(i, _) ==> i < features@.len(),
    ensures
        r@ == plan_text(*f, json::list_model(features@), *w),
{
    match f {
        PlanFault::Request(RequestFault::TooManyFeatures(n)) => {
            let mut r = text::decimal_text(*n as u64);
            r.append(" features is past the ");
            r.append(text::decimal_text(MAX_FEATURES as u64).as_str());
            r.append(" cap");
            r
        },
        PlanFault::Request(RequestFault::BadResolution(_)) => around(
            "resolution ",
            w.first.as_str(),
            " is not a positive number",
        ),
        PlanFault::Zone(i, z) => {
            let place = text::decimal_text(*i as u64);
            match z {
                ZoneFault::NotFeature => around("feature ", place.as_str(), " is not a Feature"),
                ZoneFault::NoGeometry => around("feature ", place.as_str(), " has no geometry"),
                _ => {
                    let mut r = around("feature ", place.as_str(), ": ");
                    let kind = kind(&features[*i]);
                    r.append(zone_message(z, kind.as_str(), w).as_str());
                    r
                },
            }
        },
        PlanFault::Window(WindowFault::Corner(z)) => {
            let none = String::new();
            assert(none@ =~= Seq::empty());
            zone_message(z, none.as_str(), w)
        },
        PlanFault::Window(WindowFault::NoArea) => String::from_str("the bbox has no area"),
        PlanFault::Window(WindowFault::NoZones) => String::from_str(
            "a request with no features needs a bbox",
        ),
        PlanFault::Window(WindowFault::NoCoordinates) => String::from_str(
            "the features hold no coordinates",
        ),
        PlanFault::Window(WindowFault::FlatZones) => String::from_str(
            "the features envelope has no area",
        ),
    }
}

// Layer files.

/// The layer that a fault is about.
pub open spec fn layer_of(f: ConfigFault) -> Option<int> {
    match f {
        ConfigFault::NoLayers => None,
        ConfigFault::BadName(i) => Some(i as int),
        ConfigFault::SameName(i) => Some(i as int),
        ConfigFault::Layer(i, _) => Some(i as int),
    }
}

/// Why a layer file is refused; `quoted` is the layer's name in quotes.
pub open spec fn config_text(f: ConfigFaultModel, c: Config, quoted: Seq<char>) -> Seq<char> {
    match f {
        ConfigFaultModel::NoLayers => "the layer file names no layers"@,
        ConfigFaultModel::BadName(_) => "layer name "@ + quoted + " is not a url path segment"@,
        ConfigFaultModel::SameName(i) => "two layers are named "@ + c.layers@[i].name@,
        ConfigFaultModel::Layer(i, why) => "layer "@ + c.layers@[i].name@ + ": "@ + why,
    }
}

/// Why a layer file is refused; `quoted` is the layer's name in quotes.
pub fn config_message(f: &ConfigFault, c: &Config, quoted: &str) -> (r: String)
    requires
        layer_of(*f) matches Some(i) ==> i < c.layers@.len(),
    ensures
        r@ == config_text(f@, *c, quoted@),
{
    match f {
        ConfigFault::NoLayers => String::from_str("the layer file names no layers"),
        ConfigFault::BadName(_) => around("layer name ", quoted, " is not a url path segment"),
        ConfigFault::SameName(i) => text::joined(
            "two layers are named ",
            c.layers[*i].name.as_str(),
        ),
        ConfigFault::Layer(i, why) => {
            let mut r = around("layer ", c.layers[*i].name.as_str(), ": ");
            r.append(why.as_str());
            r
        },
    }
}

} // verus!
