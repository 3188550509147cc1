//! The layer file: what each layer reads, the operations over it, and the
//! checks that a file has to pass before any source is opened.

use vstd::prelude::*;

use crate::chunk;
use crate::chunk::{FeatureGeometry, GeometryModel, Polygon, PolygonModel};
use crate::geometry;
use crate::json::Json;
use crate::number::Real;
use crate::stac;
use crate::stac::{Composite, StacSearch};
use crate::text;
use crate::vec_ops::Burn;
use crate::window::Bbox;

verus! {

/// The upper end of the gray range that nothing else fixes: 255.
pub const DEFAULT_GRAY_MAX: u64 = 0x406fe00000000000;

/// The upper end of the gray range of a slope: 90 degrees.
pub const SLOPE_GRAY_MAX: u64 = 0x4056800000000000;

/// The upper end of the gray range of an aspect: 360 degrees.
pub const ASPECT_GRAY_MAX: u64 = 0x4076800000000000;

/// The disk budget of a layer for each byte of its memory budget.
pub const DISK_BUDGET_FACTOR: usize = 8;

/// The operation that joins two inputs cell by cell.
#[derive(Clone, Copy, Debug, PartialEq, Eq, Structural)]
pub enum BinaryOpConfig {
    Add,
    Subtract,
    Multiply,
    Divide,
    Min,
    Max,
}

/// How a layer joins its inputs.
#[derive(Clone, Copy, Debug, PartialEq, Eq, Structural)]
pub enum FaninConfig {
    Mosaic,
    Combine { op: BinaryOpConfig },
}

/// The values that the gray encoding stretches over.
#[derive(Clone, Copy, Debug, PartialEq, Eq, Structural)]
pub struct GrayConfig {
    pub min: Real,
    pub max: Real,
}

/// What a layer reads.
#[derive(Debug)]
pub enum SourceConfig {
    Stac {
        api: String,
        collection: String,
        assets: Vec<String>,
        bbox: Bbox,
        datetime: Option<String>,
        composite: Option<Composite>,
    },
    Cog { path: String },
    Geojson { path: String },
    Las { path: String, epsg: u32 },
}

/// The statistic of a focal operation.
#[derive(Clone, Copy, Debug, PartialEq, Eq, Structural)]
pub enum FocalOpConfig {
    Mean,
    Median,
    Min,
    Max,
}

/// The operation on each cell, with its constant where it has one.
#[derive(Clone, Copy, Debug, PartialEq, Eq, Structural)]
pub enum UnaryOpConfig {
    Add(Real),
    Multiply(Real),
    Sqrt,
    Abs,
    Log,
}

/// A class: from `min` up to but not at `max`, and the value of its cells.
#[derive(Clone, Copy, Debug, PartialEq, Eq, Structural)]
pub struct ClassRange {
    pub min: Real,
    pub max: Real,
    pub value: Real,
}

/// An operation of a chain. The taps, scales and offsets of a convolution
/// are single precision, by their bits.
#[derive(Debug)]
#[allow(inconsistent_fields)]
pub enum OpConfig {
    Hillshade { azimuth: Real, altitude: Real },
    Bandmath { expr: String, min: Real, max: Real },
    Slope,
    Aspect,
    Focal { op: FocalOpConfig, radius: u32 },
    Mask { band: usize, valid_values: Vec<Real> },
    Reclassify { classes: Vec<ClassRange> },
    Unary { op: UnaryOpConfig },
    Rasterize { burn: Burn },
    Convolve { kernel: Vec<u32>, scales: Vec<u32>, offsets: Vec<u32> },
    VecFilter { field: String, equals: Json },
    VecSchema { drop: Vec<String>, rename: Vec<(String, String)>, add: Vec<(String, Json)> },
    VecClip { boundary: String },
    Idw { power: Real, radius_px: Real, min_points: usize },
}

/// An input of a layer that joins several: a source and its chain.
#[derive(Debug)]
pub struct InputConfig {
    pub source: SourceConfig,
    pub ops: Vec<OpConfig>,
}

/// A layer: one source, or several inputs and what joins them, then a
/// chain.
#[derive(Debug)]
pub struct LayerConfig {
    pub name: String,
    pub source: Option<SourceConfig>,
    pub inputs: Vec<InputConfig>,
    pub fanin: Option<FaninConfig>,
    pub ops: Vec<OpConfig>,
    pub gray: Option<GrayConfig>,
}

#[derive(Debug)]
pub struct Config {
    pub layers: Vec<LayerConfig>,
}

/// What a layer reads: one source, or several inputs that are joined.
#[derive(Debug)]
pub enum LayerShape<'a> {
    Single(&'a SourceConfig),
    Fanin(FaninConfig, &'a Vec<InputConfig>),
}

// Inputs.

/// Why a join cannot take so many inputs.
pub open spec fn count_fault(f: FaninConfig, count: nat) -> Option<Seq<char>> {
    match f {
        FaninConfig::Mosaic => if count < 2 {
            Some("mosaic joins two or more inputs, the layer names "@ + text::decimal(count))
        } else {
            None
        },
        FaninConfig::Combine { .. } => if count != 2 {
            Some("combine joins exactly two inputs, the layer names "@ + text::decimal(count))
        } else {
            None
        },
    }
}

/// A check's answer says what is wrong, if anything.
pub open spec fn answers(r: Result<(), String>, fault: Option<Seq<char>>) -> bool {
    match fault {
        Some(t) => r matches Err(m) && m@ == t,
        None => r is Ok,
    }
}

impl FaninConfig {
    /// Whether the join can take so many inputs.
    pub fn check_input_count(&self, count: usize) -> (r: Result<(), String>)
        ensures
            answers(r, count_fault(*self, count as nat)),
    {
        match self {
            FaninConfig::Mosaic => if count < 2 {
                Err(
                    text::joined(
                        "mosaic joins two or more inputs, the layer names ",
                        text::decimal_text(count as u64).as_str(),
                    ),
                )
            } else {
                Ok(())
            },
            FaninConfig::Combine { .. } => if count != 2 {
                Err(
                    text::joined(
                        "combine joins exactly two inputs, the layer names ",
                        text::decimal_text(count as u64).as_str(),
                    ),
                )
            } else {
                Ok(())
            },
        }
    }
}

/// What is wrong with how a layer names its sources.
pub open spec fn shape_fault(l: LayerConfig) -> Option<Seq<char>> {
    match (l.source, l.fanin) {
        (Some(_), Some(_)) => Some(
            "names a fanin beside a source, a fanin joins `input` entries"@,
        ),
        (Some(_), None) => if l.inputs@.len() > 0 {
            Some("names both a source and inputs, a layer takes one or the other"@)
        } else {
            None
        },
        (None, Some(f)) => if l.inputs@.len() == 0 {
            Some("names a fanin with no inputs to join"@)
        } else {
            count_fault(f, l.inputs@.len())
        },
        (None, None) => Some("names neither a source nor inputs"@),
    }
}

/// The shape of a layer that names its sources right.
pub open spec fn is_shape_of(s: LayerShape, l: LayerConfig) -> bool {
    match s {
        LayerShape::Single(source) => l.source == Some(*source),
        LayerShape::Fanin(f, inputs) => l.source is None && l.fanin == Some(f) && *inputs
            == l.inputs,
    }
}

// Gray ranges.

/// The range that stretches from zero.
pub open spec fn from_zero(max: u64) -> GrayConfig {
    GrayConfig { min: Real { bits: 0 }, max: Real { bits: max } }
}

/// The range after an operation on values of a range. Classes and burned
/// values have none of their own.
pub open spec fn range_after(op: OpConfig, range: Option<GrayConfig>) -> Option<GrayConfig> {
    match op {
        OpConfig::Bandmath { min, max, .. } => Some(GrayConfig { min, max }),
        OpConfig::Slope => Some(from_zero(SLOPE_GRAY_MAX)),
        OpConfig::Aspect => Some(from_zero(ASPECT_GRAY_MAX)),
        OpConfig::Reclassify { .. } => None,
        OpConfig::Rasterize { .. } => None,
        _ => range,
    }
}

/// The range after the first `n` operations of a chain.
pub open spec fn range_over(ops: Seq<OpConfig>, start: Option<GrayConfig>, n: int) -> Option<
    GrayConfig,
>
    decreases n,
{
    if n <= 0 {
        start
    } else {
        range_after(ops[n - 1], range_over(ops, start, n - 1))
    }
}

/// The range that a layer is encoded over, where one is fixed.
pub open spec fn gray_of(l: LayerConfig) -> Option<GrayConfig> {
    match l.gray {
        Some(g) => Some(g),
        None => range_over(
            l.ops@,
            if l.source is Some {
                Some(from_zero(DEFAULT_GRAY_MAX))
            } else {
                None
            },
            l.ops@.len() as int,
        ),
    }
}

/// What is wrong with a layer that no range is fixed for.
pub open spec fn gray_fault(l: LayerConfig) -> Seq<char> {
    match l.source {
        Some(_) =>
            "the ops end in values no op range covers, so the layer needs its own gray = { min = .., max = .. }"@,
        None =>
            "a fan-in layer takes no range from its inputs, so it needs its own gray = { min = .., max = .. } unless an op after the fanin fixes one"@,
    }
}

impl LayerConfig {
    /// What the layer reads.
    pub fn shape(&self) -> (r: Result<LayerShape<'_>, String>)
        ensures
            match shape_fault(*self) {
                Some(t) => r matches Err(m) && m@ == t,
                None => r matches Ok(s) && is_shape_of(s, *self),
            },
    {
        match (&self.source, &self.fanin) {
            (Some(_), Some(_)) => Err(
                String::from_str("names a fanin beside a source, a fanin joins `input` entries"),
            ),
            (Some(source), None) => if self.inputs.len() > 0 {
                Err(
                    String::from_str(
                        "names both a source and inputs, a layer takes one or the other",
                    ),
                )
            } else {
                Ok(LayerShape::Single(source))
            },
            (None, Some(f)) => {
                if self.inputs.len() == 0 {
                    return Err(String::from_str("names a fanin with no inputs to join"));
                }
                match f.check_input_count(self.inputs.len()) {
                    Ok(()) => Ok(LayerShape::Fanin(*f, &self.inputs)),
                    Err(m) => Err(m),
                }
            },
            (None, None) => Err(String::from_str("names neither a source nor inputs")),
        }
    }

    /// The values that the gray encoding stretches over: the layer's own,
    /// else those of the last operation that fixes some.
    pub fn gray_range(&self) -> (r: Result<(Real, Real), String>)
        ensures
            match gray_of(*self) {
                Some(g) => r == Ok::<(Real, Real), String>((g.min, g.max)),
                None => r matches Err(m) && m@ == gray_fault(*self),
            },
    {
        if let Some(g) = self.gray {
            return Ok((g.min, g.max));
        }
        let mut range: Option<GrayConfig> = match self.source {
            Some(_) => Some(GrayConfig { min: Real::zero(), max: Real { bits: DEFAULT_GRAY_MAX } }),
            None => None,
        };
        let ghost start = range;
        for i in 0..self.ops.len()
            invariant
                range == range_over(self.ops@, start, i as int),
        {
            range = match &self.ops[i] {
                OpConfig::Bandmath { min, max, .. } => Some(GrayConfig { min: *min, max: *max }),
                OpConfig::Slope => Some(
                    GrayConfig { min: Real::zero(), max: Real { bits: SLOPE_GRAY_MAX } },
                ),
                OpConfig::Aspect => Some(
                    GrayConfig { min: Real::zero(), max: Real { bits: ASPECT_GRAY_MAX } },
                ),
                OpConfig::Reclassify { .. } => None,
                OpConfig::Rasterize { .. } => None,
                _ => range,
            };
        }
        match range {
            Some(g) => Ok((g.min, g.max)),
            None => match self.source {
                Some(_) => Err(
                    String::from_str(
                        "the ops end in values no op range covers, so the layer needs its own gray = { min = .., max = .. }",
                    ),
                ),
                None => Err(
                    String::from_str(
                        "a fan-in layer takes no range from its inputs, so it needs its own gray = { min = .., max = .. } unless an op after the fanin fixes one",
                    ),
                ),
            },
        }
    }
}

/// A layer whose chain ends in classes or burned values has no range but
/// its own.
pub proof fn classes_have_no_range(l: LayerConfig)
    requires
        l.gray is None,
        l.ops@.len() > 0,
        l.ops@.last() is Reclassify || l.ops@.last() is Rasterize,
    ensures
        gray_of(l) is None,
{
}

/// A range that a layer names holds whatever its operations fix.
pub proof fn a_named_range_holds(l: LayerConfig, g: GrayConfig)
    requires
        l.gray == Some(g),
    ensures
        gray_of(l) == Some(g),
{
}

// Chains.

/// A boundary file and what was wrong with it, where something was.
pub type BoundaryCheck = (String, Option<String>);

/// What is wrong with a boundary, as far as it was looked at.
pub open spec fn boundary_fault(checks: Seq<BoundaryCheck>, path: Seq<char>, from: int) -> Option<
    Seq<char>,
>
    decreases checks.len() - from,
{
    if from >= checks.len() {
        None
    } else if checks[from].0@ == path {
        match checks[from].1 {
            Some(t) => Some(t@),
            None => None,
        }
    } else {
        boundary_fault(checks, path, from + 1)
    }
}

/// What is wrong with one operation.
pub open spec fn op_fault(op: OpConfig, checks: Seq<BoundaryCheck>) -> Option<Seq<char>> {
    match op {
        OpConfig::Convolve { scales, offsets, .. } => if scales@.len() != offsets@.len() {
            Some(
                "convolve names "@ + text::decimal(scales@.len()) + " scales against "@
                    + text::decimal(offsets@.len()) + " offsets"@,
            )
        } else {
            None
        },
        OpConfig::VecClip { boundary } => boundary_fault(checks, boundary@, 0),
        _ => None,
    }
}

/// What is wrong with a chain from its `i`-th operation on: the first
/// fault.
pub open spec fn ops_fault(ops: Seq<OpConfig>, checks: Seq<BoundaryCheck>, i: int) -> Option<
    Seq<char>,
>
    decreases ops.len() - i,
{
    if i >= ops.len() {
        None
    } else if op_fault(ops[i], checks) is Some {
        op_fault(ops[i], checks)
    } else {
        ops_fault(ops, checks, i + 1)
    }
}

pub open spec fn has_rasterize(ops: Seq<OpConfig>) -> bool {
    exists|i: int| 0 <= i < ops.len() && #[trigger] ops[i] is Rasterize
}

pub open spec fn has_idw(ops: Seq<OpConfig>) -> bool {
    exists|i: int| 0 <= i < ops.len() && #[trigger] ops[i] is Idw
}

/// What is wrong with a source and its chain.
pub open spec fn branch_fault(
    source: SourceConfig,
    ops: Seq<OpConfig>,
    checks: Seq<BoundaryCheck>,
) -> Option<Seq<char>> {
    if source is Stac && source->assets@.len() == 0 {
        Some("stac source names no assets"@)
    } else if source is Geojson && !has_rasterize(ops) {
        Some(
            "the geojson source has no rasterize op, so the chain hands features to a png encoder that wants pixels"@,
        )
    } else if source is Las && !has_idw(ops) {
        Some(
            "the las source has no idw op, so the chain hands points to a png encoder that wants pixels"@,
        )
    } else {
        ops_fault(ops, checks, 0)
    }
}

fn find_boundary(checks: &Vec<BoundaryCheck>, path: &str) -> (r: Result<(), String>)
    ensures
        answers(r, boundary_fault(checks@, path@, 0)),
{
    for i in 0..checks.len()
        invariant
            boundary_fault(checks@, path@, 0) == boundary_fault(checks@, path@, i as int),
    {
        if text::same_text(checks[i].0.as_str(), path) {
            return match &checks[i].1 {
                Some(t) => Err(String::from_str(t.as_str())),
                None => Ok(()),
            };
        }
    }
    Ok(())
}

/// Check a chain.
pub fn check_ops(ops: &Vec<OpConfig>, checks: &Vec<BoundaryCheck>) -> (r: Result<(), String>)
    ensures
        answers(r, ops_fault(ops@, checks@, 0)),
{
    for i in 0..ops.len()
        invariant
            ops_fault(ops@, checks@, 0) == ops_fault(ops@, checks@, i as int),
    {
        match &ops[i] {
            OpConfig::Convolve { scales, offsets, .. } => {
                if scales.len() != offsets.len() {
                    let mut m = text::joined(
                        "convolve names ",
                        text::decimal_text(scales.len() as u64).as_str(),
                    );
                    m.append(" scales against ");
                    m.append(text::decimal_text(offsets.len() as u64).as_str());
                    m.append(" offsets");
                    return Err(m);
                }
            },
            OpConfig::VecClip { boundary } => {
                if let Err(m) = find_boundary(checks, boundary.as_str()) {
                    return Err(m);
                }
            },
            _ => {},
        }
    }
    Ok(())
}

fn rasterizes(ops: &Vec<OpConfig>) -> (r: bool)
    ensures
        r == has_rasterize(ops@),
{
    for i in 0..ops.len()
        invariant
            forall|k: int| 0 <= k < i ==> !(#[trigger] ops@[k] is Rasterize),
    {
        if let OpConfig::Rasterize { .. } = &ops[i] {
            assert(ops@[i as int] is Rasterize);
            return true;
        }
    }
    false
}

fn grids_points(ops: &Vec<OpConfig>) -> (r: bool)
    ensures
        r == has_idw(ops@),
{
    for i in 0..ops.len()
        invariant
            forall|k: int| 0 <= k < i ==> !(#[trigger] ops@[k] is Idw),
    {
        if let OpConfig::Idw { .. } = &ops[i] {
            assert(ops@[i as int] is Idw);
            return true;
        }
    }
    false
}

/// Check a source and its chain.
pub fn check_branch(
    source: &SourceConfig,
    ops: &Vec<OpConfig>,
    checks: &Vec<BoundaryCheck>,
) -> (r: Result<(), String>)
    ensures
        answers(r, branch_fault(*source, ops@, checks@)),
{
    match source {
        SourceConfig::Stac { assets, .. } => {
            if assets.len() == 0 {
                return Err(String::from_str("stac source names no assets"));
            }
        },
        SourceConfig::Geojson { .. } => {
            if !rasterizes(ops) {
                return Err(
                    String::from_str(
                        "the geojson source has no rasterize op, so the chain hands features to a png encoder that wants pixels",
                    ),
                );
            }
        },
        SourceConfig::Las { .. } => {
            if !grids_points(ops) {
                return Err(
                    String::from_str(
                        "the las source has no idw op, so the chain hands points to a png encoder that wants pixels",
                    ),
                );
            }
        },
        SourceConfig::Cog { .. } => {},
    }
    check_ops(ops, checks)
}

// Layers.

/// A name can stand as a part of a path.
pub open spec fn is_segment(name: Seq<char>) -> bool {
    name.len() > 0 && forall|i: int| 0 <= i < name.len() ==> #[trigger] name[i] != '/' && name[i]
        != ' '
}

/// What is wrong with the inputs from the `i`-th on: the first fault, with
/// the place of its input counted from one.
pub open spec fn inputs_fault(
    inputs: Seq<InputConfig>,
    checks: Seq<BoundaryCheck>,
    i: int,
) -> Option<Seq<char>>
    decreases inputs.len() - i,
{
    if i >= inputs.len() {
        None
    } else {
        match branch_fault(inputs[i].source, inputs[i].ops@, checks) {
            Some(t) => Some("input "@ + text::decimal((i + 1) as nat) + ": "@ + t),
            None => inputs_fault(inputs, checks, i + 1),
        }
    }
}

/// What is wrong with a layer, its name aside.
pub open spec fn layer_fault(l: LayerConfig, checks: Seq<BoundaryCheck>) -> Option<Seq<char>> {
    if shape_fault(l) is Some {
        shape_fault(l)
    } else if l.source is Some && branch_fault(l.source->0, l.ops@, checks) is Some {
        branch_fault(l.source->0, l.ops@, checks)
    } else if l.source is None && inputs_fault(l.inputs@, checks, 0) is Some {
        inputs_fault(l.inputs@, checks, 0)
    } else if l.source is None && ops_fault(l.ops@, checks, 0) is Some {
        ops_fault(l.ops@, checks, 0)
    } else if gray_of(l) is None {
        Some(gray_fault(l))
    } else {
        None
    }
}

/// Why a layer file cannot be served.
#[derive(Debug)]
pub enum ConfigFault {
    NoLayers,
    /// The layer at this place has a name that is no part of a path.
    BadName(usize),
    /// The layer at this place has a name that an earlier one has.
    SameName(usize),
    /// The layer at this place, and what is wrong with it.
    Layer(usize, String),
}

/// What a [`ConfigFault`] says.
pub enum ConfigFaultModel {
    NoLayers,
    BadName(int),
    SameName(int),
    Layer(int, Seq<char>),
}

impl View for ConfigFault {
    type V = ConfigFaultModel;

    open spec fn view(&self) -> ConfigFaultModel {
        match *self {
            ConfigFault::NoLayers => ConfigFaultModel::NoLayers,
            ConfigFault::BadName(i) => ConfigFaultModel::BadName(i as int),
            ConfigFault::SameName(i) => ConfigFaultModel::SameName(i as int),
            ConfigFault::Layer(i, m) => ConfigFaultModel::Layer(i as int, m@),
        }
    }
}

/// A layer has the name of an earlier one.
pub open spec fn named_before(ls: Seq<LayerConfig>, i: int) -> bool {
    exists|j: int| 0 <= j < i && (#[trigger] ls[j]).name@ == ls[i].name@
}

/// The first fault of the layers from the `i`-th on.
pub open spec fn layers_fault(
    ls: Seq<LayerConfig>,
    checks: Seq<BoundaryCheck>,
    i: int,
) -> Option<ConfigFaultModel>
    decreases ls.len() - i,
{
    if i >= ls.len() {
        None
    } else if !is_segment(ls[i].name@) {
        Some(ConfigFaultModel::BadName(i))
    } else if named_before(ls, i) {
        Some(ConfigFaultModel::SameName(i))
    } else {
        match layer_fault(ls[i], checks) {
            Some(t) => Some(ConfigFaultModel::Layer(i, t)),
            None => layers_fault(ls, checks, i + 1),
        }
    }
}

/// What is wrong with a layer file.
pub open spec fn config_fault(c: Config, checks: Seq<BoundaryCheck>) -> Option<ConfigFaultModel> {
    if c.layers@.len() == 0 {
        Some(ConfigFaultModel::NoLayers)
    } else {
        layers_fault(c.layers@, checks, 0)
    }
}

fn segment(name: &str) -> (r: bool)
    ensures
        r == is_segment(name@),
{
    let cs = text::chars_of(name);
    if cs.len() == 0 {
        return false;
    }
    for i in 0..cs.len()
        invariant
            cs@ == name@,
            forall|k: int| 0 <= k < i ==> #[trigger] name@[k] != '/' && name@[k] != ' ',
    {
        if cs[i] == '/' || cs[i] == ' ' {
            assert(name@[i as int] == '/' || name@[i as int] == ' ');
            return false;
        }
    }
    true
}

fn check_inputs(inputs: &Vec<InputConfig>, checks: &Vec<BoundaryCheck>) -> (r: Result<(), String>)
    ensures
        answers(r, inputs_fault(inputs@, checks@, 0)),
{
    let n: usize = inputs.len();
    for i in 0..n
        invariant
            n == inputs@.len(),
            inputs_fault(inputs@, checks@, 0) == inputs_fault(inputs@, checks@, i as int),
    {
        if let Err(t) = check_branch(&inputs[i].source, &inputs[i].ops, checks) {
            let mut m = text::joined("input ", text::decimal_text((i + 1) as u64).as_str());
            m.append(": ");
            m.append(t.as_str());
            return Err(m);
        }
    }
    Ok(())
}

impl LayerConfig {
    /// Check a layer, its name aside.
    pub fn check(&self, checks: &Vec<BoundaryCheck>) -> (r: Result<(), String>)
        ensures
            answers(r, layer_fault(*self, checks@)),
    {
        match self.shape() {
            Err(m) => {
                return Err(m);
            },
            Ok(LayerShape::Single(source)) => {
                if let Err(m) = check_branch(source, &self.ops, checks) {
                    return Err(m);
                }
            },
            Ok(LayerShape::Fanin(_, inputs)) => {
                if let Err(m) = check_inputs(inputs, checks) {
                    return Err(m);
                }
                if let Err(m) = check_ops(&self.ops, checks) {
                    return Err(m);
                }
            },
        }
        match self.gray_range() {
            Ok(_) => Ok(()),
            Err(m) => Err(m),
        }
    }
}

impl Config {
    /// Check a layer file; `checks` says what was found of the boundary
    /// files that it names.
    pub fn check(&self, checks: &Vec<BoundaryCheck>) -> (r: Result<(), ConfigFault>)
        ensures
            match config_fault(*self, checks@) {
                Some(f) => r matches Err(e) && e@ == f,
                None => r is Ok,
            },
    {
        let n: usize = self.layers.len();
        if n == 0 {
            return Err(ConfigFault::NoLayers);
        }
        for i in 0..n
            invariant
                n == self.layers@.len(),
                n > 0,
                layers_fault(self.layers@, checks@, 0) == layers_fault(
                    self.layers@,
                    checks@,
                    i as int,
                ),
        {
            let layer = &self.layers[i];
            if !segment(layer.name.as_str()) {
                return Err(ConfigFault::BadName(i));
            }
            for j in 0..i
                invariant
                    i < n,
                    n == self.layers@.len(),
                    *layer == self.layers@[i as int],
                    is_segment(layer.name@),
                    layers_fault(self.layers@, checks@, 0) == layers_fault(
                        self.layers@,
                        checks@,
                        i as int,
                    ),
                    forall|k: int| 0 <= k < j ==> (#[trigger] self.layers@[k]).name@ != layer.name@,
            {
                if text::same_text(self.layers[j].name.as_str(), layer.name.as_str()) {
                    assert(named_before(self.layers@, i as int));
                    return Err(ConfigFault::SameName(i));
                }
            }
            if let Err(m) = layer.check(checks) {
                return Err(ConfigFault::Layer(i, m));
            }
        }
        Ok(())
    }
}

proof fn layers_sound(ls: Seq<LayerConfig>, checks: Seq<BoundaryCheck>, from: int, k: int)
    requires
        0 <= from <= k < ls.len(),
        layers_fault(ls, checks, from) is None,
    ensures
        is_segment(ls[k].name@),
        !named_before(ls, k),
        layer_fault(ls[k], checks) is None,
    decreases k - from,
{
    if from < k {
        layers_sound(ls, checks, from + 1, k);
    }
}

/// Every layer of a file that is taken has a path of its own and a gray
/// range.
pub proof fn served_layers_are_sound(c: Config, checks: Seq<BoundaryCheck>, i: int, j: int)
    requires
        config_fault(c, checks) is None,
        0 <= i < j < c.layers@.len(),
    ensures
        c.layers@[i].name@ != c.layers@[j].name@,
        is_segment(c.layers@[i].name@),
        gray_of(c.layers@[i]) is Some,
        gray_of(c.layers@[j]) is Some,
{
    layers_sound(c.layers@, checks, 0, i);
    layers_sound(c.layers@, checks, 0, j);
}

// Searches.

/// A copy of texts.
fn copy_texts(v: &Vec<String>) -> (r: Vec<String>)
    ensures
        stac::texts(r@) == stac::texts(v@),
{
    let mut out: Vec<String> = Vec::new();
    for i in 0..v.len()
        invariant
            out@.len() == i,
            forall|k: int| 0 <= k < i ==> (#[trigger] out@[k])@ == v@[k]@,
    {
        out.push(String::from_str(v[i].as_str()));
    }
    assert(stac::texts(out@) =~= stac::texts(v@));
    out
}

/// A search says what a source does.
pub open spec fn searches_for(s: StacSearch, source: SourceConfig) -> bool {
    &&& s.api@ == source->api@
    &&& s.collection@ == source->collection@
    &&& stac::texts(s.assets@) == stac::texts(source->assets@)
    &&& s.bbox == source->bbox
    &&& match source->datetime {
        Some(d) => s.datetime matches Some(e) && e@ == d@,
        None => s.datetime is None,
    }
    &&& s.limit == stac::DEFAULT_LIMIT
    &&& s.composite == (match source->composite {
        Some(c) => c,
        None => Composite::Latest,
    })
}

impl SourceConfig {
    /// The search that a catalogue layer opens with; no other kind has one.
    pub fn stac_search(&self) -> (r: Option<StacSearch>)
        ensures
            match r {
                Some(s) => self is Stac && searches_for(s, *self),
                None => !(self is Stac),
            },
    {
        match self {
            SourceConfig::Stac { api, collection, assets, bbox, datetime, composite } => Some(
                StacSearch {
                    api: String::from_str(api.as_str()),
                    collection: String::from_str(collection.as_str()),
                    assets: copy_texts(assets),
                    bbox: *bbox,
                    datetime: match datetime {
                        Some(d) => Some(String::from_str(d.as_str())),
                        None => None,
                    },
                    limit: stac::DEFAULT_LIMIT,
                    composite: match composite {
                        Some(c) => *c,
                        None => Composite::Latest,
                    },
                },
            ),
            _ => None,
        }
    }
}

// Boundaries.

/// Why a file is no boundary.
#[derive(Clone, Copy, Debug, PartialEq, Eq, Structural)]
pub enum BoundaryFault {
    /// The feature at this place is no area.
    NotArea(usize),
    NoPolygons,
}

/// The polygons of the first `n` features; or the first that is no area.
pub open spec fn boundary(fs: Seq<Option<FeatureGeometry>>, n: int) -> Result<
    Seq<PolygonModel>,
    usize,
>
    decreases n,
{
    if n <= 0 {
        Ok(Seq::empty())
    } else {
        match boundary(fs, n - 1) {
            Err(i) => Err(i),
            Ok(before) => match fs[n - 1] {
                Some(g) => match g@ {
                    GeometryModel::Polygon(p) => Ok(before.push(p)),
                    GeometryModel::MultiPolygon(ps) => Ok(before + ps),
                    _ => Err((n - 1) as usize),
                },
                None => Err((n - 1) as usize),
            },
        }
    }
}

proof fn no_area_stays(fs: Seq<Option<FeatureGeometry>>, i: int, n: int)
    requires
        0 <= i <= n,
        boundary(fs, i) is Err,
    ensures
        boundary(fs, n) == boundary(fs, i),
    decreases n,
{
    if i < n {
        no_area_stays(fs, i, n - 1);
    }
}

pub fn copy_polygon(p: &Polygon) -> (r: Polygon)
    ensures
        r@ == p@,
{
    let mut interiors: Vec<Vec<crate::chunk::Coord>> = Vec::new();
    for i in 0..p.interiors.len()
        invariant
            interiors@.len() == i,
            forall|k: int| 0 <= k < i ==> (#[trigger] interiors@[k])@ == p.interiors@[k]@,
    {
        interiors.push(geometry::copy_coords(&p.interiors[i]));
    }
    assert(chunk::lines_model(interiors@) =~= chunk::lines_model(p.interiors@));
    Polygon { exterior: geometry::copy_coords(&p.exterior), interiors }
}

/// The polygons that a clip cuts against: all of a file, which holds
/// nothing else.
pub fn boundary_polygons(features: &Vec<Option<FeatureGeometry>>) -> (r: Result<
    Vec<Polygon>,
    BoundaryFault,
>)
    ensures
        match boundary(features@, features@.len() as int) {
            Err(i) => r == Err::<Vec<Polygon>, BoundaryFault>(BoundaryFault::NotArea(i)),
            Ok(ps) => if ps.len() == 0 {
                r == Err::<Vec<Polygon>, BoundaryFault>(BoundaryFault::NoPolygons)
            } else {
                r matches Ok(v) && chunk::polygons_model(v@) == ps
            },
        },
{
    let n: usize = features.len();
    let mut out: Vec<Polygon> = Vec::new();
    assert(chunk::polygons_model(out@) =~= Seq::empty());
    for i in 0..n
        invariant
            n == features@.len(),
            boundary(features@, i as int) == Ok::<Seq<PolygonModel>, usize>(
                chunk::polygons_model(out@),
            ),
    {
        let ghost before = chunk::polygons_model(out@);
        match &features[i] {
            Some(FeatureGeometry::Polygon(p)) => {
                out.push(copy_polygon(p));
                assert(chunk::polygons_model(out@) =~= before.push(p@));
            },
            Some(FeatureGeometry::MultiPolygon(ps)) => {
                let ghost add = chunk::polygons_model(ps@);
                assert(before + add.take(0) =~= before);
                for k in 0..ps.len()
                    invariant
                        add == chunk::polygons_model(ps@),
                        chunk::polygons_model(out@) == before + add.take(k as int),
                {
                    let ghost so_far = chunk::polygons_model(out@);
                    out.push(copy_polygon(&ps[k]));
                    assert(chunk::polygons_model(out@) =~= so_far.push(add[k as int]));
                    assert(chunk::polygons_model(out@) =~= before + add.take(k + 1));
                }
                assert(add.take(add.len() as int) =~= add);
            },
            _ => {
                proof {
                    no_area_stays(features@, i + 1, n as int);
                }
                return Err(BoundaryFault::NotArea(i));
            },
        }
    }
    if out.len() == 0 {
        return Err(BoundaryFault::NoPolygons);
    }
    Ok(out)
}

/// What a feature that is no area is called.
pub open spec fn kind_text(g: Option<GeometryModel>) -> Seq<char> {
    match g {
        None => "a feature with no geometry"@,
        Some(GeometryModel::Point(_)) => "a point"@,
        Some(GeometryModel::LineString(_)) => "a linestring"@,
        Some(GeometryModel::MultiPoint(_)) => "a multipoint"@,
        Some(GeometryModel::MultiLineString(_)) => "a multilinestring"@,
        Some(GeometryModel::GeometryCollection(_)) => "a geometry collection"@,
        Some(GeometryModel::Polygon(_)) => "a polygon"@,
        Some(GeometryModel::MultiPolygon(_)) => "a polygon"@,
    }
}

/// What a feature's geometry is called.
pub fn geometry_kind(g: Option<&FeatureGeometry>) -> (r: &'static str)
    ensures
        r@ == kind_text(
            match g {
                Some(h) => Some(h@),
                None => None,
            },
        ),
{
    match g {
        None => "a feature with no geometry",
        Some(FeatureGeometry::Point(_)) => "a point",
        Some(FeatureGeometry::LineString(_)) => "a linestring",
        Some(FeatureGeometry::MultiPoint(_)) => "a multipoint",
        Some(FeatureGeometry::MultiLineString(_)) => "a multilinestring",
        Some(FeatureGeometry::GeometryCollection(_)) => "a geometry collection",
        Some(FeatureGeometry::Polygon(_)) => "a polygon",
        Some(FeatureGeometry::MultiPolygon(_)) => "a polygon",
    }
}

} // verus!
