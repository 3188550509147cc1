use geoplumb::config::{
    ClassRange, Config, ConfigFault, FaninConfig, BinaryOpConfig, FocalOpConfig, GrayConfig,
    InputConfig, LayerConfig, OpConfig, SourceConfig, UnaryOpConfig, BoundaryFault,
    boundary_polygons, geometry_kind,
};
use geoplumb::chunk::{Coord, FeatureGeometry, Polygon};
use geoplumb::json;
use geoplumb::messages::config_message;
use geoplumb::json::Json;
use geoplumb::number::Real;
use geoplumb::request::{
    check_collection_type, parse_steps, parse_tile, parse_time, temporal_extent, Slots, TileFormat,
    XyzTile,
};
use geoplumb::stac::Composite;
use geoplumb::stages::{layer_stages, Stage};
use geoplumb::vec_ops::Burn;
use geoplumb::window::Bbox;

fn num(v: f64) -> Real {
    Real::from_bits(v.to_bits())
}

fn double(v: Real) -> f64 {
    f64::from_bits(v.to_bits())
}

// A layer file, value by value.

fn number(v: &toml::Value) -> Result<f64, String> {
    v.as_float()
        .or_else(|| v.as_integer().map(|i| i as f64))
        .ok_or_else(|| format!("{v} is no number"))
}

fn field<'a>(t: &'a toml::Table, name: &str) -> Result<&'a toml::Value, String> {
    t.get(name).ok_or_else(|| format!("missing field {name}"))
}

fn text(v: &toml::Value) -> Result<String, String> {
    v.as_str().map(str::to_string).ok_or_else(|| format!("{v} is no text"))
}

fn texts(v: &toml::Value) -> Result<Vec<String>, String> {
    v.as_array().ok_or("no list")?.iter().map(text).collect()
}

fn composite(v: &toml::Value) -> Result<Composite, String> {
    if let Some(t) = v.as_table() {
        return Ok(Composite::Percentile(num(number(field(t, "percentile")?)?)));
    }
    match v.as_str() {
        Some("latest") => Ok(Composite::Latest),
        Some("mean") => Ok(Composite::Mean),
        Some("median") => Ok(Composite::Median),
        Some("min") => Ok(Composite::Min),
        Some("max") => Ok(Composite::Max),
        Some("stddev") => Ok(Composite::StdDev),
        Some("count") => Ok(Composite::Count),
        _ => Err(format!("{v} is no composite")),
    }
}

fn source(t: &toml::Table) -> Result<SourceConfig, String> {
    match field(t, "kind")?.as_str() {
        Some("cog") => Ok(SourceConfig::Cog { path: text(field(t, "path")?)? }),
        Some("geojson") => Ok(SourceConfig::Geojson { path: text(field(t, "path")?)? }),
        Some("stac") => {
            let corners = field(t, "bbox")?.as_array().ok_or("no bbox")?;
            let at = |i: usize| -> Result<Real, String> { Ok(num(number(&corners[i])?)) };
            Ok(SourceConfig::Stac {
                api: text(field(t, "api")?)?,
                collection: text(field(t, "collection")?)?,
                assets: texts(field(t, "assets")?)?,
                bbox: Bbox::new(at(0)?, at(1)?, at(2)?, at(3)?),
                datetime: t.get("datetime").map(text).transpose()?,
                composite: t.get("composite").map(composite).transpose()?,
            })
        }
        _ => Err("unknown source kind".to_string()),
    }
}

fn singles(v: &toml::Value) -> Result<Vec<u32>, String> {
    v.as_array()
        .ok_or("no list")?
        .iter()
        .map(|x| number(x).map(|n| (n as f32).to_bits()))
        .collect()
}

fn op(t: &toml::Table) -> Result<OpConfig, String> {
    match field(t, "kind")?.as_str() {
        Some("hillshade") => Ok(OpConfig::Hillshade {
            azimuth: num(number(field(t, "azimuth")?)?),
            altitude: num(number(field(t, "altitude")?)?),
        }),
        Some("bandmath") => Ok(OpConfig::Bandmath {
            expr: text(field(t, "expr")?)?,
            min: num(number(field(t, "min")?)?),
            max: num(number(field(t, "max")?)?),
        }),
        Some("slope") => Ok(OpConfig::Slope),
        Some("aspect") => Ok(OpConfig::Aspect),
        Some("focal") => Ok(OpConfig::Focal {
            op: match field(t, "op")?.as_str() {
                Some("mean") => FocalOpConfig::Mean,
                Some("median") => FocalOpConfig::Median,
                Some("min") => FocalOpConfig::Min,
                Some("max") => FocalOpConfig::Max,
                _ => return Err("unknown focal op".to_string()),
            },
            radius: field(t, "radius")?.as_integer().ok_or("no radius")? as u32,
        }),
        Some("mask") => Ok(OpConfig::Mask {
            band: field(t, "band")?.as_integer().ok_or("no band")? as usize,
            valid_values: field(t, "valid_values")?
                .as_array()
                .ok_or("no list")?
                .iter()
                .map(|v| number(v).map(num))
                .collect::<Result<Vec<Real>, String>>()?,
        }),
        Some("reclassify") => {
            let mut classes = Vec::new();
            for c in field(t, "classes")?.as_array().ok_or("no list")? {
                let c = c.as_table().ok_or("no class")?;
                classes.push(ClassRange {
                    min: num(number(field(c, "min")?)?),
                    max: num(number(field(c, "max")?)?),
                    value: num(number(field(c, "value")?)?),
                });
            }
            Ok(OpConfig::Reclassify { classes })
        }
        Some("unary") => Ok(OpConfig::Unary {
            op: match field(t, "op")? {
                toml::Value::String(s) if s == "sqrt" => UnaryOpConfig::Sqrt,
                toml::Value::String(s) if s == "abs" => UnaryOpConfig::Abs,
                toml::Value::String(s) if s == "log" => UnaryOpConfig::Log,
                toml::Value::Table(t) if t.contains_key("multiply") => {
                    UnaryOpConfig::Multiply(num(number(field(t, "multiply")?)?))
                }
                toml::Value::Table(t) => UnaryOpConfig::Add(num(number(field(t, "add")?)?)),
                _ => return Err("unknown unary op".to_string()),
            },
        }),
        Some("convolve") => {
            let mut kernel = Vec::new();
            for row in field(t, "kernel")?.as_array().ok_or("no kernel")? {
                kernel.extend(singles(row)?);
            }
            Ok(OpConfig::Convolve {
                kernel,
                scales: match t.get("scales") {
                    Some(v) => singles(v)?,
                    None => vec![1.0f32.to_bits()],
                },
                offsets: match t.get("offsets") {
                    Some(v) => singles(v)?,
                    None => vec![0.0f32.to_bits()],
                },
            })
        }
        _ => Err("unknown op".to_string()),
    }
}

fn ops(t: &toml::Table) -> Result<Vec<OpConfig>, String> {
    match t.get("op") {
        None => Ok(Vec::new()),
        Some(v) => v
            .as_array()
            .ok_or("no list of ops")?
            .iter()
            .map(|o| op(o.as_table().ok_or("no op")?))
            .collect(),
    }
}

fn layer(t: &toml::Table) -> Result<LayerConfig, String> {
    for name in t.keys() {
        if !["name", "source", "input", "fanin", "op", "gray"].contains(&name.as_str()) {
            return Err(format!("unknown field {name}"));
        }
    }
    Ok(LayerConfig {
        name: text(field(t, "name")?)?,
        source: match t.get("source") {
            Some(s) => Some(source(s.as_table().ok_or("no source")?)?),
            None => None,
        },
        inputs: Vec::new(),
        fanin: None,
        ops: ops(t)?,
        gray: match t.get("gray") {
            Some(g) => {
                let g = g.as_table().ok_or("no range")?;
                Some(GrayConfig {
                    min: num(number(field(g, "min")?)?),
                    max: num(number(field(g, "max")?)?),
                })
            }
            None => None,
        },
    })
}

fn parse_config(file: &str) -> Result<Config, String> {
    let root: toml::Table = toml::from_str(file).map_err(|e| e.to_string())?;
    let mut layers = Vec::new();
    if let Some(list) = root.get("layer") {
        for l in list.as_array().ok_or("no list of layers")? {
            layers.push(layer(l.as_table().ok_or("no layer")?)?);
        }
    }
    let config = Config { layers };
    match config.check(&Vec::new()) {
        Ok(()) => Ok(config),
        Err(fault) => {
            let quoted = match &fault {
                ConfigFault::BadName(i) => format!("{:?}", config.layers[*i].name),
                _ => String::new(),
            };
            Err(config_message(&fault, &config, &quoted))
        }
    }
}

const FULL: &str = r#"
[[layer]]
name = "ndvi"
source = { kind = "stac", api = "https://example.test/v1", collection = "sentinel-2-l2a", assets = ["red", "nir"], bbox = [7.0, 46.3, 8.0, 46.9], datetime = "2025-06-01T00:00:00Z/2025-09-01T00:00:00Z", composite = "median" }

[[layer.op]]
kind = "bandmath"
expr = "(b1 - b0) / (b1 + b0)"
min = -1.0
max = 1.0

[[layer]]
name = "dem"
source = { kind = "cog", path = "/data/dem.tif" }

[[layer.op]]
kind = "hillshade"
azimuth = 315.0
altitude = 45.0

[[layer]]
name = "slope"
source = { kind = "cog", path = "/data/dem.tif" }

[[layer.op]]
kind = "slope"

[[layer]]
name = "aspect"
source = { kind = "cog", path = "/data/dem.tif" }

[[layer.op]]
kind = "aspect"
"#;

const EVERY_OP: &str = r#"
[[layer]]
name = "plain"
source = { kind = "cog", path = "COG_PATH" }
gray = { min = 300.0, max = 400.0 }

[[layer]]
name = "focal"
source = { kind = "cog", path = "COG_PATH" }
gray = { min = 300.0, max = 400.0 }

[[layer.op]]
kind = "focal"
op = "mean"
radius = 2

[[layer]]
name = "reclassified"
source = { kind = "cog", path = "COG_PATH" }
gray = { min = 0.0, max = 3.0 }

[[layer.op]]
kind = "reclassify"
classes = [
    { min = 0.0, max = 350.0, value = 1.0 },
    { min = 350.0, max = 1000.0, value = 2.0 },
]

[[layer]]
name = "masked"
source = { kind = "cog", path = "COG_PATH" }
gray = { min = 0.0, max = 3.0 }

[[layer.op]]
kind = "reclassify"
classes = [
    { min = 0.0, max = 350.0, value = 1.0 },
    { min = 350.0, max = 1000.0, value = 2.0 },
]

[[layer.op]]
kind = "mask"
band = 0
valid_values = [1.0]

[[layer]]
name = "rooted"
source = { kind = "cog", path = "COG_PATH" }
gray = { min = 17.0, max = 20.0 }

[[layer.op]]
kind = "unary"
op = "sqrt"

[[layer]]
name = "convolved"
source = { kind = "cog", path = "COG_PATH" }
gray = { min = 300.0, max = 400.0 }

[[layer.op]]
kind = "convolve"
kernel = [
    [0.0625, 0.125, 0.0625],
    [0.125, 0.25, 0.125],
    [0.0625, 0.125, 0.0625],
]
"#;

const EVERY_OP_LAYERS: usize = 6;

#[test]
fn config_parses_sources_ops_and_their_order() {
    let config = parse_config(FULL).unwrap();
    assert_eq!(config.layers.len(), 4);

    let ndvi = &config.layers[0];
    assert_eq!(ndvi.name, "ndvi");
    let search = ndvi.source.as_ref().unwrap().stac_search().expect("a stac source");
    assert_eq!(search.collection, "sentinel-2-l2a");
    assert_eq!(search.assets, ["red", "nir"]);
    assert_eq!(
        search.datetime.as_deref(),
        Some("2025-06-01T00:00:00Z/2025-09-01T00:00:00Z")
    );
    assert_eq!(search.composite, Composite::Median);
    assert_eq!(
        [search.bbox.min_x, search.bbox.min_y, search.bbox.max_x, search.bbox.max_y].map(double),
        [7.0, 46.3, 8.0, 46.9]
    );
    match &ndvi.ops[..] {
        [OpConfig::Bandmath { expr, min, max }] => {
            assert_eq!(expr, "(b1 - b0) / (b1 + b0)");
            assert_eq!((double(*min), double(*max)), (-1.0, 1.0));
        }
        other => panic!("unexpected ops: {other:?}"),
    }

    let dem = &config.layers[1];
    assert!(dem.source.as_ref().unwrap().stac_search().is_none());
    match dem.source.as_ref().unwrap() {
        SourceConfig::Cog { path } => assert_eq!(path, "/data/dem.tif"),
        other => panic!("unexpected source: {other:?}"),
    }
    assert!(matches!(dem.ops[..], [OpConfig::Hillshade { .. }]));
    assert!(matches!(config.layers[2].ops[..], [OpConfig::Slope]));
    assert!(matches!(config.layers[3].ops[..], [OpConfig::Aspect]));
}

#[test]
fn config_parses_every_single_input_op() {
    let config = parse_config(EVERY_OP).unwrap();
    let named = |name: &str| {
        config
            .layers
            .iter()
            .find(|l| l.name == name)
            .unwrap_or_else(|| panic!("no layer {name}"))
    };
    assert_eq!(config.layers.len(), EVERY_OP_LAYERS);
    assert!(named("plain").ops.is_empty());

    match &named("focal").ops[..] {
        [OpConfig::Focal { op, radius }] => {
            assert!(matches!(op, FocalOpConfig::Mean));
            assert_eq!(*radius, 2);
        }
        other => panic!("unexpected ops: {other:?}"),
    }

    match &named("reclassified").ops[..] {
        [OpConfig::Reclassify { classes }] => {
            assert_eq!(classes.len(), 2);
            let class = |i: usize| {
                (double(classes[i].min), double(classes[i].max), double(classes[i].value))
            };
            assert_eq!(class(0), (0.0, 350.0, 1.0));
            assert_eq!(class(1), (350.0, 1000.0, 2.0));
        }
        other => panic!("unexpected ops: {other:?}"),
    }

    match &named("masked").ops[..] {
        [OpConfig::Reclassify { .. }, OpConfig::Mask { band, valid_values }] => {
            assert_eq!(*band, 0);
            assert_eq!(valid_values, &[num(1.0)]);
        }
        other => panic!("unexpected ops: {other:?}"),
    }

    match &named("rooted").ops[..] {
        [OpConfig::Unary { op }] => assert!(matches!(op, UnaryOpConfig::Sqrt)),
        other => panic!("unexpected ops: {other:?}"),
    }

    match &named("convolved").ops[..] {
        [OpConfig::Convolve { kernel, scales, offsets }] => {
            assert_eq!(f32::from_bits(kernel[4]), 0.25);
            let top: Vec<f32> = kernel[..3].iter().map(|b| f32::from_bits(*b)).collect();
            assert_eq!(top, [0.0625, 0.125, 0.0625]);
            assert_eq!(scales, &[1.0f32.to_bits()]);
            assert_eq!(offsets, &[0.0f32.to_bits()]);
        }
        other => panic!("unexpected ops: {other:?}"),
    }

    let gray = named("plain").gray.expect("a gray range");
    assert_eq!((double(gray.min), double(gray.max)), (300.0, 400.0));
}

#[test]
fn a_unary_op_takes_its_constant_where_it_has_one() {
    let file = r#"
[[layer]]
name = "doubled"
source = { kind = "cog", path = "/a.tif" }

[[layer.op]]
kind = "unary"
op = { multiply = 2.0 }
"#;
    let config = parse_config(file).unwrap();
    match &config.layers[0].ops[..] {
        [OpConfig::Unary { op }] => assert_eq!(*op, UnaryOpConfig::Multiply(num(2.0))),
        other => panic!("unexpected ops: {other:?}"),
    }
}

#[test]
fn a_reclassify_layer_has_to_name_its_own_gray_range() {
    let file = r#"
[[layer]]
name = "classes"
source = { kind = "cog", path = "/a.tif" }

[[layer.op]]
kind = "reclassify"
classes = [{ min = 0.0, max = 350.0, value = 1.0 }]
"#;
    let error = parse_config(file).expect_err("class values have no range to stretch over");
    assert!(
        error.contains("gray"),
        "the error should name the field that is missing: {error}"
    );

    let with_range = file.replace(
        "source = { kind = \"cog\", path = \"/a.tif\" }",
        "source = { kind = \"cog\", path = \"/a.tif\" }\ngray = { min = 0.0, max = 3.0 }",
    );
    parse_config(&with_range).expect("a named gray range makes it servable");
}

#[test]
fn every_composite_spelling_reaches_the_search() {
    let cases = [
        ("\"latest\"", Composite::Latest),
        ("\"mean\"", Composite::Mean),
        ("\"min\"", Composite::Min),
        ("\"max\"", Composite::Max),
        ("\"stddev\"", Composite::StdDev),
        ("\"count\"", Composite::Count),
        ("{ percentile = 90.0 }", Composite::Percentile(num(90.0))),
    ];
    for (toml_value, want) in cases {
        let file = format!(
            r#"
[[layer]]
name = "stack"
source = {{ kind = "stac", api = "https://example.test/v1", collection = "c", assets = ["data"], bbox = [7.0, 46.3, 8.0, 46.9], composite = {toml_value} }}
"#
        );
        let config = parse_config(&file).unwrap_or_else(|e| panic!("{toml_value}: {e}"));
        let search = config.layers[0]
            .source
            .as_ref()
            .unwrap()
            .stac_search()
            .expect("a stac source");
        assert_eq!(search.composite, want, "{toml_value}");
    }
}

#[test]
fn config_rejects_files_it_cannot_serve() {
    let cases = [
        ("not toml at all {{{", "syntax"),
        ("", "no layers"),
        (
            r#"[[layer]]
name = "a"
source = { kind = "wms", url = "x" }"#,
            "unknown source kind",
        ),
        (
            r#"[[layer]]
name = "a"
source = { kind = "cog", path = "/a.tif" }
[[layer.op]]
kind = "contours""#,
            "op outside the supported set",
        ),
        (
            r#"[[layer]]
name = "a"
source = { kind = "cog", path = "/a.tif" }
[[layer.op]]
kind = "hillshade"
azimuth = 315.0"#,
            "op missing a field",
        ),
        (
            r#"[[layer]]
name = "a"
source = { kind = "cog", path = "/a.tif" }
[[layer]]
name = "a"
source = { kind = "cog", path = "/b.tif" }"#,
            "duplicate names",
        ),
        (
            r#"[[layer]]
name = "a/b"
source = { kind = "cog", path = "/a.tif" }"#,
            "name is not a path segment",
        ),
        (
            r#"[[layer]]
name = "a"
source = { kind = "stac", api = "x", collection = "c", assets = [], bbox = [0.0, 0.0, 1.0, 1.0] }"#,
            "stac source with no assets",
        ),
        (
            r#"[[layer]]
name = "a"
source = { kind = "cog", path = "/a.tif" }
colour = "blue""#,
            "unknown layer field",
        ),
    ];
    for (file, why) in cases {
        assert!(parse_config(file).is_err(), "{why} should not have parsed");
    }
}

#[test]
fn the_t_parameter_is_an_rfc3339_interval_or_nothing() {
    assert_eq!(parse_time(None).unwrap(), None);
    let t = parse_time(Some("2024-06-01T00:00:00Z/2024-07-01T00:00:00Z"))
        .unwrap()
        .expect("an interval");
    assert_eq!(t.end_ms - t.start_ms, 30 * 86_400_000);
    assert!(parse_time(Some("2024-07-01T00:00:00Z/2024-06-01T00:00:00Z")).is_err());
    assert!(parse_time(Some("2024-06-01T00:00:00Z")).is_err());
    assert!(parse_time(Some("last summer")).is_err());
    assert!(parse_time(Some("")).is_err());
}

#[test]
fn a_bad_time_names_the_parameter() {
    assert_eq!(
        parse_time(Some("yesterday")),
        Err("bad t parameter: not an rfc 3339 interval: yesterday".to_string())
    );
    assert_eq!(
        parse_time(Some("2024-07-01T00:00:00Z/2024-06-01T00:00:00Z")),
        Err("bad t parameter: time interval 2024-07-01T00:00:00Z/2024-06-01T00:00:00Z ends before it starts".to_string())
    );
}

fn cog(name: &str, ops: Vec<OpConfig>, gray: Option<GrayConfig>) -> LayerConfig {
    LayerConfig {
        name: name.to_string(),
        source: Some(SourceConfig::Cog { path: "/a.tif".to_string() }),
        inputs: Vec::new(),
        fanin: None,
        ops,
        gray,
    }
}

fn input() -> InputConfig {
    InputConfig { source: SourceConfig::Cog { path: "/a.tif".to_string() }, ops: Vec::new() }
}

#[test]
fn the_last_op_with_a_range_fixes_the_gray() {
    let range = |l: &LayerConfig| l.gray_range().map(|(a, b)| (double(a), double(b)));
    assert_eq!(range(&cog("a", vec![], None)), Ok((0.0, 255.0)));
    assert_eq!(range(&cog("a", vec![OpConfig::Slope], None)), Ok((0.0, 90.0)));
    assert_eq!(
        range(&cog("a", vec![OpConfig::Slope, OpConfig::Aspect], None)),
        Ok((0.0, 360.0))
    );
    let classes = OpConfig::Reclassify { classes: Vec::new() };
    assert_eq!(range(&cog("a", vec![classes, OpConfig::Slope], None)), Ok((0.0, 90.0)));
    let burned = OpConfig::Rasterize { burn: Burn::Constant(num(1.0)) };
    assert!(range(&cog("a", vec![OpConfig::Slope, burned], None)).is_err());
    let named = GrayConfig { min: num(-1.0), max: num(1.0) };
    assert_eq!(range(&cog("a", vec![OpConfig::Slope], Some(named))), Ok((-1.0, 1.0)));
}

#[test]
fn a_layer_reads_one_source_or_joined_inputs() {
    let mut both = cog("a", vec![], None);
    both.inputs.push(input());
    assert_eq!(
        both.check(&Vec::new()),
        Err("names both a source and inputs, a layer takes one or the other".to_string())
    );
    let mut beside = cog("a", vec![], None);
    beside.fanin = Some(FaninConfig::Mosaic);
    assert_eq!(
        beside.check(&Vec::new()),
        Err("names a fanin beside a source, a fanin joins `input` entries".to_string())
    );
    let mut joined = cog("a", vec![OpConfig::Slope], None);
    joined.source = None;
    assert_eq!(
        joined.check(&Vec::new()),
        Err("names neither a source nor inputs".to_string())
    );
    joined.fanin = Some(FaninConfig::Mosaic);
    assert_eq!(
        joined.check(&Vec::new()),
        Err("names a fanin with no inputs to join".to_string())
    );
    joined.inputs.push(input());
    assert_eq!(
        joined.check(&Vec::new()),
        Err("mosaic joins two or more inputs, the layer names 1".to_string())
    );
    joined.inputs.push(input());
    assert_eq!(joined.check(&Vec::new()), Ok(()));
    joined.inputs.push(input());
    joined.fanin = Some(FaninConfig::Combine { op: BinaryOpConfig::Subtract });
    assert_eq!(
        joined.check(&Vec::new()),
        Err("combine joins exactly two inputs, the layer names 3".to_string())
    );
    joined.inputs.pop();
    joined.ops.clear();
    assert!(joined.check(&Vec::new()).unwrap_err().starts_with("a fan-in layer takes no range"));
}

#[test]
fn a_faulty_input_is_named_by_its_place() {
    let mut layer = cog("a", vec![OpConfig::Slope], None);
    layer.source = None;
    layer.fanin = Some(FaninConfig::Mosaic);
    layer.inputs.push(input());
    layer.inputs.push(InputConfig {
        source: SourceConfig::Geojson { path: "/a.json".to_string() },
        ops: Vec::new(),
    });
    assert_eq!(
        layer.check(&Vec::new()),
        Err("input 2: the geojson source has no rasterize op, so the chain hands features to a png encoder that wants pixels".to_string())
    );
}

#[test]
fn chains_are_checked_op_by_op() {
    let convolve = OpConfig::Convolve { kernel: vec![0; 9], scales: vec![0, 0], offsets: vec![0] };
    assert_eq!(
        cog("a", vec![convolve], None).check(&Vec::new()),
        Err("convolve names 2 scales against 1 offsets".to_string())
    );
    let clip = || OpConfig::VecClip { boundary: "/b.json".to_string() };
    let found = vec![("/b.json".to_string(), Some("clip boundary /b.json: gone".to_string()))];
    assert_eq!(
        cog("a", vec![clip()], None).check(&found),
        Err("clip boundary /b.json: gone".to_string())
    );
    assert_eq!(cog("a", vec![clip()], None).check(&vec![("/b.json".to_string(), None)]), Ok(()));
    let mut cloud = cog("a", vec![], None);
    cloud.source = Some(SourceConfig::Las { path: "/a.las".to_string(), epsg: 4326 });
    assert!(cloud.check(&Vec::new()).is_err());
    cloud.ops.push(OpConfig::Idw {
        power: num(2.0),
        radius_px: num(4.0),
        min_points: 1,
    });
    assert_eq!(cloud.check(&Vec::new()), Ok(()));
}

fn square() -> Polygon {
    let c = |x: f64, y: f64| Coord { x: num(x), y: num(y) };
    Polygon {
        exterior: vec![c(0.0, 0.0), c(1.0, 0.0), c(1.0, 1.0), c(0.0, 0.0)],
        interiors: Vec::new(),
    }
}

#[test]
fn a_boundary_is_made_of_areas() {
    let file = vec![
        Some(FeatureGeometry::Polygon(square())),
        Some(FeatureGeometry::MultiPolygon(vec![square(), square()])),
    ];
    assert_eq!(boundary_polygons(&file).unwrap().len(), 3);
    assert_eq!(boundary_polygons(&Vec::new()).unwrap_err(), BoundaryFault::NoPolygons);
    let point = FeatureGeometry::Point(Coord { x: num(0.0), y: num(0.0) });
    let mixed = vec![Some(FeatureGeometry::Polygon(square())), Some(point)];
    assert_eq!(boundary_polygons(&mixed).unwrap_err(), BoundaryFault::NotArea(1));
    assert_eq!(geometry_kind(mixed[1].as_ref()), "a point");
    assert_eq!(geometry_kind(None), "a feature with no geometry");
}

#[test]
fn malformed_tile_paths_are_refused() {
    let tile = |z: u8, x: u32, y: u32| XyzTile { z, x, y };
    assert_eq!(
        parse_tile(12, 2131, "1443.png"),
        Ok((tile(12, 2131, 1443), TileFormat::Png))
    );
    assert_eq!(
        parse_tile(12, 2131, "1443.tif"),
        Ok((tile(12, 2131, 1443), TileFormat::GeoTiff))
    );
    assert_eq!(parse_tile(12, 2131, "1443"), Ok((tile(12, 2131, 1443), TileFormat::Png)));
    assert_eq!(
        parse_tile(12, 2131, "+7.png.png"),
        Ok((tile(12, 2131, 7), TileFormat::Png))
    );
    assert_eq!(
        parse_tile(12, 2131, "north.png"),
        Err("tile y north.png is not a number".to_string())
    );
    assert_eq!(parse_tile(40, 0, "0.png"), Err("zoom 40 is past the 24 cap".to_string()));
    assert_eq!(parse_tile(2, 9, "0.png"), Err("tile 9/0 is outside zoom 2".to_string()));
    assert_eq!(parse_tile(2, 0, "4.png"), Err("tile 0/4 is outside zoom 2".to_string()));
    assert!(parse_tile(24, (1 << 24) - 1, "16777215").is_ok());
    assert!(parse_tile(24, 1 << 24, "0").is_err());
    assert!(parse_tile(0, 0, "4294967296").is_err());
    assert!(parse_tile(0, 0, "-0").is_err());
    assert!(parse_tile(0, 0, "+").is_err());
    assert!(parse_tile(0, 0, "").is_err());
}

#[test]
fn a_series_names_its_steps() {
    let step = "2024-06-01T00:00:00Z/2024-07-01T00:00:00Z".to_string();
    let next = "2024-07-01T00:00:00Z/2024-08-01T00:00:00Z".to_string();
    let steps = parse_steps(&vec![step.clone(), next]).unwrap();
    assert_eq!(steps.len(), 2);
    assert_eq!(steps[0].end_ms, steps[1].start_ms);
    assert_eq!(
        parse_steps(&Vec::new()),
        Err("a series needs at least one step".to_string())
    );
    assert_eq!(
        parse_steps(&vec![step.clone(); 65]),
        Err("65 steps is past the 64 cap".to_string())
    );
    assert_eq!(parse_steps(&vec![step.clone(); 64]).unwrap().len(), 64);
    assert_eq!(
        parse_steps(&vec![step, "last summer".to_string()]),
        Err("step 1: bad t parameter: not an rfc 3339 interval: last summer".to_string())
    );
}

#[test]
fn a_collection_calls_itself_one_or_nothing() {
    assert_eq!(check_collection_type(None), Ok(()));
    assert_eq!(check_collection_type(Some("FeatureCollection")), Ok(()));
    assert_eq!(
        check_collection_type(Some("Feature")),
        Err("Feature is not a FeatureCollection".to_string())
    );
}

#[test]
fn reductions_past_the_slots_are_refused_and_slots_come_back() {
    let mut slots = Slots::new();
    for _ in 0..4 {
        assert_eq!(slots.take_slot(), Ok(()));
    }
    for _ in 0..12 {
        let message = slots.take_slot().unwrap_err();
        assert!(message.contains("reduction slots are busy"), "{message}");
    }
    slots.give_back();
    assert_eq!(slots.take_slot(), Ok(()));
    assert!(slots.take_slot().is_err());
}

fn read(raw: &str) -> Json {
    json::parse(&raw.as_bytes().to_vec()).unwrap()
}

#[test]
fn a_collection_advertises_its_extent() {
    let body = read(r#"{"extent":{"temporal":{"interval":[["2015-06-27T10:25:31Z",null]]}}}"#);
    let extent = temporal_extent(&body).unwrap();
    assert_eq!(extent.start.as_deref(), Some("2015-06-27T10:25:31Z"));
    assert_eq!(extent.end, None);
    assert!(temporal_extent(&read(r#"{"extent":{"temporal":{"interval":[]}}}"#)).is_none());
    assert!(temporal_extent(&read("{}")).is_none());
}

#[test]
fn a_layer_is_wired_stage_by_stage() {
    let source = || SourceConfig::Cog { path: "a.tif".to_string() };
    let convolve = || OpConfig::Convolve {
        kernel: vec![0; 9],
        scales: vec![1],
        offsets: vec![2],
    };
    let mut layer = LayerConfig {
        name: "l".to_string(),
        source: Some(source()),
        inputs: Vec::new(),
        fanin: None,
        ops: vec![OpConfig::Slope, convolve()],
        gray: None,
    };
    let stages = layer_stages(&layer).unwrap();
    assert_eq!(stages.len(), 6);
    assert!(matches!(stages[0], Stage::Source(_)));
    assert!(matches!(stages[1], Stage::Slope));
    assert!(matches!(stages[2], Stage::ToTensor(s, o) if *s == [1] && *o == [2]));
    assert!(matches!(stages[3], Stage::TensorConv(k) if k.len() == 9));
    assert!(matches!(stages[4], Stage::ToRaster));
    assert!(matches!(stages[5], Stage::Reproject(crs) if crs == geoplumb::caps::Crs(3857)));
    layer.source = None;
    layer.fanin = Some(FaninConfig::Mosaic);
    layer.inputs = vec![
        InputConfig { source: source(), ops: vec![OpConfig::Aspect] },
        InputConfig { source: source(), ops: Vec::new() },
    ];
    layer.ops = Vec::new();
    let stages = layer_stages(&layer).unwrap();
    assert_eq!(stages.len(), 5);
    assert!(matches!(stages[1], Stage::Aspect));
    assert!(matches!(stages[3], Stage::Join(FaninConfig::Mosaic, 2)));
    layer.fanin = None;
    assert_eq!(layer_stages(&layer).unwrap_err(), "names neither a source nor inputs");
}
