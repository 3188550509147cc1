//! Caps: what a link between two nodes may carry, and how two demands on a
//! link combine. Negotiation fixes data type, plane count, reference system
//! and chunk size per link; the resolution stays a range that each pull is
//! checked against.

use vstd::prelude::*;
use vstd::std_specs::hash::DefaultHasherAdditionalSpecFns;

use crate::bytes;
use crate::number::Real;
use crate::number::INFINITY_BITS;
use crate::text;

verus! {

/// A value that a caps field can take: it can be compared with another for
/// equality and has a rank by which a lower bound is met.
pub trait FieldValue: Copy {
    spec fn rank(self) -> int;

    fn same(self, other: Self) -> (r: bool)
        ensures
            r == (self == other),
    ;

    fn reaches(self, floor: Self) -> (r: bool)
        ensures
            r == (self.rank() >= floor.rank()),
    ;
}

/// A coordinate reference system, by its EPSG code.
#[derive(Clone, Copy, Debug, PartialEq, Eq, Hash, Structural)]
pub struct Crs(pub u32);

/// The code of longitude and latitude.
pub const WGS84_CODE: u32 = 4326;

/// The code of spherical mercator metres, the system of web tiles.
pub const WEB_MERCATOR_CODE: u32 = 3857;

impl Crs {
    pub fn wgs84() -> (r: Crs)
        ensures
            r == Crs(WGS84_CODE),
    {
        Crs(WGS84_CODE)
    }

    pub fn web_mercator() -> (r: Crs)
        ensures
            r == Crs(WEB_MERCATOR_CODE),
    {
        Crs(WEB_MERCATOR_CODE)
    }

    /// The authority name of the system.
    pub fn authority(&self) -> (r: String)
        ensures
            r@ == "EPSG:"@ + text::decimal(self.0 as nat),
    {
        text::joined("EPSG:", text::decimal_text(self.0 as u64).as_str())
    }
}

/// The sample type of a raster.
#[derive(Clone, Copy, Debug, PartialEq, Eq, Hash, Structural)]
pub enum Dtype {
    F64,
}

/// The element type of a tensor.
#[derive(Clone, Copy, Debug, PartialEq, Eq, Hash, Structural)]
pub enum TensorDtype {
    F32,
}

impl FieldValue for Crs {
    open spec fn rank(self) -> int {
        self.0 as int
    }

    fn same(self, other: Self) -> (r: bool) {
        self.0 == other.0
    }

    fn reaches(self, floor: Self) -> (r: bool) {
        self.0 >= floor.0
    }
}

impl FieldValue for Dtype {
    open spec fn rank(self) -> int {
        0
    }

    fn same(self, other: Self) -> (r: bool) {
        self == other
    }

    fn reaches(self, floor: Self) -> (r: bool) {
        true
    }
}

impl FieldValue for TensorDtype {
    open spec fn rank(self) -> int {
        0
    }

    fn same(self, other: Self) -> (r: bool) {
        self == other
    }

    fn reaches(self, floor: Self) -> (r: bool) {
        true
    }
}

impl FieldValue for u16 {
    open spec fn rank(self) -> int {
        self as int
    }

    fn same(self, other: Self) -> (r: bool) {
        self == other
    }

    fn reaches(self, floor: Self) -> (r: bool) {
        self >= floor
    }
}

impl FieldValue for u32 {
    open spec fn rank(self) -> int {
        self as int
    }

    fn same(self, other: Self) -> (r: bool) {
        self == other
    }

    fn reaches(self, floor: Self) -> (r: bool) {
        self >= floor
    }
}

/// A pattern over one caps field: no demand, one of a list in order of
/// preference, or anything from a floor upward.
#[derive(Debug)]
pub enum SetField<T> {
    Any,
    OneOf(Vec<T>),
    AtLeast(T),
}

/// What a [`SetField`] says.
#[verifier::ext_equal]
pub enum FieldModel<T> {
    Any,
    OneOf(Seq<T>),
    AtLeast(T),
}

impl<T> View for SetField<T> {
    type V = FieldModel<T>;

    open spec fn view(&self) -> FieldModel<T> {
        match *self {
            SetField::Any => FieldModel::Any,
            SetField::OneOf(v) => FieldModel::OneOf(v@),
            SetField::AtLeast(f) => FieldModel::AtLeast(f),
        }
    }
}

/// The values of `x` that `y` lists too, in the order of `x`.
pub open spec fn listed_in<T>(x: Seq<T>, y: Seq<T>) -> Seq<T> {
    x.filter(|v: T| y.contains(v))
}

/// The values of `x` that reach a floor, in the order of `x`.
pub open spec fn reaching<T: FieldValue>(x: Seq<T>, floor: T) -> Seq<T> {
    x.filter(|v: T| v.rank() >= floor.rank())
}

impl<T: FieldValue> FieldModel<T> {
    /// Both demands at once, in the preference order of the first.
    pub open spec fn meet(self, other: Self) -> Self {
        match (self, other) {
            (FieldModel::Any, o) => o,
            (s, FieldModel::Any) => s,
            (FieldModel::OneOf(x), FieldModel::OneOf(y)) => FieldModel::OneOf(listed_in(x, y)),
            (FieldModel::OneOf(x), FieldModel::AtLeast(f)) => FieldModel::OneOf(reaching(x, f)),
            (FieldModel::AtLeast(f), FieldModel::OneOf(y)) => FieldModel::OneOf(reaching(y, f)),
            (FieldModel::AtLeast(f), FieldModel::AtLeast(g)) => FieldModel::AtLeast(
                if f.rank() >= g.rank() {
                    f
                } else {
                    g
                },
            ),
        }
    }

    /// No value is left.
    pub open spec fn empty(self) -> bool {
        self matches FieldModel::OneOf(v) && v.len() == 0
    }

    /// A value meets the demand.
    pub open spec fn allows(self, v: T) -> bool {
        match self {
            FieldModel::Any => true,
            FieldModel::OneOf(x) => x.contains(v),
            FieldModel::AtLeast(f) => v.rank() >= f.rank(),
        }
    }

    /// The preferred value, where the pattern names one.
    pub open spec fn preferred(self) -> Option<T> {
        match self {
            FieldModel::Any => None,
            FieldModel::OneOf(x) => if x.len() == 0 {
                None
            } else {
                Some(x[0])
            },
            FieldModel::AtLeast(f) => Some(f),
        }
    }

    /// The preferred value, or a given one where the pattern names none.
    pub open spec fn preferred_or(self, fallback: T) -> T {
        match self.preferred() {
            Some(v) => v,
            None => fallback,
        }
    }
}

fn copy_values<T: FieldValue>(v: &Vec<T>) -> (r: Vec<T>)
    ensures
        r@ == v@,
{
    let mut r: Vec<T> = Vec::new();
    for i in 0..v.len()
        invariant
            r@ == v@.take(i as int),
    {
        r.push(v[i]);
        assert(v@.take(i as int + 1) =~= v@.take(i as int).push(v@[i as int]));
    }
    assert(v@.take(v@.len() as int) =~= v@);
    r
}

fn lists<T: FieldValue>(v: &Vec<T>, x: T) -> (r: bool)
    ensures
        r == v@.contains(x),
{
    for i in 0..v.len()
        invariant
            forall|k: int| 0 <= k < i ==> v@[k] != x,
    {
        if v[i].same(x) {
            return true;
        }
    }
    false
}

fn same_values<T: FieldValue>(a: &Vec<T>, b: &Vec<T>) -> (r: bool)
    ensures
        r == (a@ == b@),
{
    if a.len() != b.len() {
        return false;
    }
    for i in 0..a.len()
        invariant
            a@.len() == b@.len(),
            forall|k: int| 0 <= k < i ==> a@[k] == b@[k],
    {
        if !a[i].same(b[i]) {
            return false;
        }
    }
    assert(a@ =~= b@);
    true
}

fn keep_listed<T: FieldValue>(a: &Vec<T>, b: &Vec<T>) -> (r: Vec<T>)
    ensures
        r@ == listed_in(a@, b@),
{
    let mut r: Vec<T> = Vec::new();
    proof {
        reveal(Seq::filter);
    }
    for i in 0..a.len()
        invariant
            r@ == listed_in(a@.take(i as int), b@),
    {
        assert(a@.take(i as int + 1).drop_last() =~= a@.take(i as int));
        reveal(Seq::filter);
        if lists(b, a[i]) {
            r.push(a[i]);
        }
    }
    assert(a@.take(a@.len() as int) =~= a@);
    r
}

fn keep_reaching<T: FieldValue>(a: &Vec<T>, floor: T) -> (r: Vec<T>)
    ensures
        r@ == reaching(a@, floor),
{
    let mut r: Vec<T> = Vec::new();
    proof {
        reveal(Seq::filter);
    }
    for i in 0..a.len()
        invariant
            r@ == reaching(a@.take(i as int), floor),
    {
        assert(a@.take(i as int + 1).drop_last() =~= a@.take(i as int));
        reveal(Seq::filter);
        if a[i].reaches(floor) {
            r.push(a[i]);
        }
    }
    assert(a@.take(a@.len() as int) =~= a@);
    r
}

impl<T: FieldValue> SetField<T> {
    /// The pattern that only one value meets.
    pub fn one(v: T) -> (r: Self)
        ensures
            r@ == FieldModel::OneOf(seq![v]),
    {
        let mut values: Vec<T> = Vec::new();
        values.push(v);
        let r = SetField::OneOf(values);
        assert(r@ =~= FieldModel::OneOf(seq![v]));
        r
    }

    /// The same pattern once more.
    pub fn copied(&self) -> (r: Self)
        ensures
            r@ == self@,
    {
        match self {
            SetField::Any => SetField::Any,
            SetField::OneOf(v) => SetField::OneOf(copy_values(v)),
            SetField::AtLeast(f) => SetField::AtLeast(*f),
        }
    }

    pub fn intersect(&self, other: &Self) -> (r: Self)
        ensures
            r@ == self@.meet(other@),
    {
        match self {
            SetField::Any => other.copied(),
            SetField::OneOf(a) => match other {
                SetField::Any => self.copied(),
                SetField::OneOf(b) => SetField::OneOf(keep_listed(a, b)),
                SetField::AtLeast(f) => SetField::OneOf(keep_reaching(a, *f)),
            },
            SetField::AtLeast(f) => match other {
                SetField::Any => self.copied(),
                SetField::OneOf(b) => SetField::OneOf(keep_reaching(b, *f)),
                SetField::AtLeast(g) => SetField::AtLeast(
                    if f.reaches(*g) {
                        *f
                    } else {
                        *g
                    },
                ),
            },
        }
    }

    pub fn is_empty(&self) -> (r: bool)
        ensures
            r == self@.empty(),
    {
        match self {
            SetField::OneOf(v) => v.len() == 0,
            _ => false,
        }
    }

    pub fn fixate(&self) -> (r: Option<T>)
        ensures
            r == self@.preferred(),
    {
        match self {
            SetField::Any => None,
            SetField::OneOf(v) => if v.len() == 0 {
                None
            } else {
                Some(v[0])
            },
            SetField::AtLeast(f) => Some(*f),
        }
    }

    fn fixate_or(&self, fallback: T) -> (r: T)
        ensures
            r == self@.preferred_or(fallback),
    {
        match self.fixate() {
            Some(v) => v,
            None => fallback,
        }
    }

    /// Whether two patterns say the same.
    pub fn same_as(&self, other: &Self) -> (r: bool)
        ensures
            r == (self@ == other@),
    {
        match self {
            SetField::Any => matches!(other, SetField::Any),
            SetField::OneOf(a) => match other {
                SetField::OneOf(b) => same_values(a, b),
                _ => false,
            },
            SetField::AtLeast(f) => match other {
                SetField::AtLeast(g) => f.same(*g),
                _ => false,
            },
        }
    }
}

/// A value meets both demands exactly where it meets their intersection.
pub proof fn field_meet_allows<T: FieldValue>(a: FieldModel<T>, b: FieldModel<T>, v: T)
    ensures
        a.meet(b).allows(v) == (a.allows(v) && b.allows(v)),
{
    match (a, b) {
        (FieldModel::OneOf(x), FieldModel::OneOf(y)) => {
            filter_contains(x, |w: T| y.contains(w), v);
        },
        (FieldModel::OneOf(x), FieldModel::AtLeast(f)) => {
            filter_contains(x, |w: T| w.rank() >= f.rank(), v);
        },
        (FieldModel::AtLeast(f), FieldModel::OneOf(y)) => {
            filter_contains(y, |w: T| w.rank() >= f.rank(), v);
        },
        _ => {},
    }
}

proof fn filter_contains<T>(x: Seq<T>, p: spec_fn(T) -> bool, v: T)
    ensures
        x.filter(p).contains(v) == (x.contains(v) && p(v)),
    decreases x.len(),
{
    reveal(Seq::filter);
    if x.len() > 0 {
        let rest = x.drop_last();
        filter_contains(rest, p, v);
        assert(x =~= rest.push(x.last()));
        if p(x.last()) {
            let f = rest.filter(p);
            assert(x.filter(p) =~= f.push(x.last()));
            if f.push(x.last()).contains(v) {
                let k = choose|k: int| 0 <= k < f.push(x.last()).len() && f.push(x.last())[k] == v;
                if k < f.len() {
                    assert(f[k] == v);
                } else {
                    assert(x[x.len() - 1] == v);
                }
            }
            if x.contains(v) && p(v) {
                let k = choose|k: int| 0 <= k < x.len() && x[k] == v;
                if k < rest.len() {
                    assert(rest[k] == v);
                    let j = choose|j: int| 0 <= j < f.len() && f[j] == v;
                    assert(f.push(x.last())[j] == v);
                } else {
                    assert(f.push(x.last())[f.len() as int] == v);
                }
            }
        }
        if rest.contains(v) {
            let k = choose|k: int| 0 <= k < rest.len() && rest[k] == v;
            assert(x[k] == v);
        }
        if x.contains(v) && !rest.contains(v) {
            let k = choose|k: int| 0 <= k < x.len() && x[k] == v;
            if k < rest.len() {
                assert(rest[k] == v);
            }
            assert(v == x.last());
        }
    }
}

/// A pattern is empty exactly where no value meets it, as long as it names
/// its values.
pub proof fn field_empty_allows_none<T: FieldValue>(a: FieldModel<T>)
    ensures
        a.empty() ==> forall|v: T| !a.allows(v),
        a.preferred() matches Some(v) ==> a.allows(v),
{
    match a {
        FieldModel::OneOf(x) => {
            if x.len() > 0 {
                assert(x[0] == x[0]);
            }
        },
        _ => {},
    }
}

/// An inclusive range of ground units per pixel.
#[derive(Clone, Copy, Debug, PartialEq, Eq, Structural)]
pub struct ResRange {
    pub min: Real,
    pub max: Real,
}

impl ResRange {
    /// The range that no demand narrows.
    pub open spec fn unbounded() -> ResRange {
        ResRange { min: Real { bits: 0 }, max: Real { bits: INFINITY_BITS } }
    }

    pub open spec fn meet(self, other: ResRange) -> ResRange {
        ResRange { min: self.min.larger(other.min), max: self.max.smaller(other.max) }
    }

    pub open spec fn empty(self) -> bool {
        self.max.below(self.min)
    }

    pub open spec fn holds(self, r: Real) -> bool {
        self.min.at_most(r) && r.at_most(self.max)
    }

    /// Both bounds are numbers.
    pub open spec fn proper(self) -> bool {
        !self.min.nan() && !self.max.nan()
    }

    /// The bounds compare equal as numbers.
    pub open spec fn equals(self, other: ResRange) -> bool {
        self.min.equals(other.min) && self.max.equals(other.max)
    }

    pub fn any() -> (r: ResRange)
        ensures
            r == ResRange::unbounded(),
    {
        ResRange { min: Real::zero(), max: Real::infinity() }
    }

    pub fn at_least(min: Real) -> (r: ResRange)
        ensures
            r == (ResRange { min, max: Real { bits: INFINITY_BITS } }),
    {
        ResRange { min, max: Real::infinity() }
    }

    pub fn intersect(&self, other: &ResRange) -> (r: ResRange)
        ensures
            r == self.meet(*other),
    {
        ResRange { min: self.min.max(other.min), max: self.max.min(other.max) }
    }

    pub fn is_empty(&self) -> (r: bool)
        ensures
            r == self.empty(),
    {
        self.max.lt(self.min)
    }

    pub fn contains(&self, r: Real) -> (b: bool)
        ensures
            b == self.holds(r),
    {
        self.min.le(r) && r.le(self.max)
    }

    fn same_as(&self, other: &ResRange) -> (r: bool)
        ensures
            r == self.equals(*other),
    {
        self.min.eq_num(other.min) && self.max.eq_num(other.max)
    }
}

/// The demands on a raster link.
#[derive(Debug)]
pub struct RasterPattern {
    pub dtype: SetField<Dtype>,
    pub bands: SetField<u16>,
    pub crs: SetField<Crs>,
    pub resolution: ResRange,
    pub chunk_px: SetField<u32>,
}

/// What such a pattern says.
#[verifier::ext_equal]
pub struct RasterModel {
    pub dtype: FieldModel<Dtype>,
    pub bands: FieldModel<u16>,
    pub crs: FieldModel<Crs>,
    pub resolution: ResRange,
    pub chunk_px: FieldModel<u32>,
}

impl RasterModel {
    pub open spec fn unbounded() -> RasterModel {
        RasterModel {
            dtype: FieldModel::Any,
            bands: FieldModel::Any,
            crs: FieldModel::Any,
            resolution: ResRange::unbounded(),
            chunk_px: FieldModel::Any,
        }
    }

    pub open spec fn meet(self, other: RasterModel) -> RasterModel {
        RasterModel {
            dtype: self.dtype.meet(other.dtype),
            bands: self.bands.meet(other.bands),
            crs: self.crs.meet(other.crs),
            resolution: self.resolution.meet(other.resolution),
            chunk_px: self.chunk_px.meet(other.chunk_px),
        }
    }

    pub open spec fn empty(self) -> bool {
        ||| self.dtype.empty()
        ||| self.bands.empty()
        ||| self.crs.empty()
        ||| self.resolution.empty()
        ||| self.chunk_px.empty()
    }

    pub open spec fn equals(self, other: RasterModel) -> bool {
        &&& self.dtype == other.dtype
        &&& self.bands == other.bands
        &&& self.crs == other.crs
        &&& self.resolution.equals(other.resolution)
        &&& self.chunk_px == other.chunk_px
    }
}

impl View for RasterPattern {
    type V = RasterModel;

    open spec fn view(&self) -> RasterModel {
        RasterModel {
            dtype: self.dtype@,
            bands: self.bands@,
            crs: self.crs@,
            resolution: self.resolution,
            chunk_px: self.chunk_px@,
        }
    }
}

impl Default for RasterPattern {
    fn default() -> (r: Self)
        ensures
            r@ == RasterModel::unbounded(),
    {
        RasterPattern {
            dtype: SetField::Any,
            bands: SetField::Any,
            crs: SetField::Any,
            resolution: ResRange::any(),
            chunk_px: SetField::Any,
        }
    }
}

impl RasterPattern {
    /// The same pattern once more.
    pub fn copied(&self) -> (r: Self)
        ensures
            r@ == self@,
    {
        RasterPattern {
            dtype: self.dtype.copied(),
            bands: self.bands.copied(),
            crs: self.crs.copied(),
            resolution: self.resolution,
            chunk_px: self.chunk_px.copied(),
        }
    }

    pub fn intersect(&self, other: &Self) -> (r: Self)
        ensures
            r@ == self@.meet(other@),
    {
        RasterPattern {
            dtype: self.dtype.intersect(&other.dtype),
            bands: self.bands.intersect(&other.bands),
            crs: self.crs.intersect(&other.crs),
            resolution: self.resolution.intersect(&other.resolution),
            chunk_px: self.chunk_px.intersect(&other.chunk_px),
        }
    }

    pub fn is_empty(&self) -> (r: bool)
        ensures
            r == self@.empty(),
    {
        self.dtype.is_empty() || self.bands.is_empty() || self.crs.is_empty() || self.resolution.is_empty() || self.chunk_px.is_empty()
    }

    /// Whether two patterns say the same.
    pub fn same_as(&self, other: &Self) -> (r: bool)
        ensures
            r == self@.equals(other@),
    {
        self.dtype.same_as(&other.dtype) && self.bands.same_as(&other.bands) && self.crs.same_as(&other.crs) && self.resolution.same_as(&other.resolution) && self.chunk_px.same_as(&other.chunk_px)
    }
}

/// The demands on a point cloud link. The resolution bounds the thinning
/// ladder; chunks tile as rasters do.
#[derive(Debug)]
pub struct PointPattern {
    pub crs: SetField<Crs>,
    pub resolution: ResRange,
    pub chunk_px: SetField<u32>,
}

/// What such a pattern says.
#[verifier::ext_equal]
pub struct AreaModel {
    pub crs: FieldModel<Crs>,
    pub resolution: ResRange,
    pub chunk_px: FieldModel<u32>,
}

impl AreaModel {
    pub open spec fn unbounded() -> AreaModel {
        AreaModel {
            crs: FieldModel::Any,
            resolution: ResRange::unbounded(),
            chunk_px: FieldModel::Any,
        }
    }

    pub open spec fn meet(self, other: AreaModel) -> AreaModel {
        AreaModel {
            crs: self.crs.meet(other.crs),
            resolution: self.resolution.meet(other.resolution),
            chunk_px: self.chunk_px.meet(other.chunk_px),
        }
    }

    pub open spec fn empty(self) -> bool {
        ||| self.crs.empty()
        ||| self.resolution.empty()
        ||| self.chunk_px.empty()
    }

    pub open spec fn equals(self, other: AreaModel) -> bool {
        &&& self.crs == other.crs
        &&& self.resolution.equals(other.resolution)
        &&& self.chunk_px == other.chunk_px
    }
}

impl View for PointPattern {
    type V = AreaModel;

    open spec fn view(&self) -> AreaModel {
        AreaModel {
            crs: self.crs@,
            resolution: self.resolution,
            chunk_px: self.chunk_px@,
        }
    }
}

impl Default for PointPattern {
    fn default() -> (r: Self)
        ensures
            r@ == AreaModel::unbounded(),
    {
        PointPattern {
            crs: SetField::Any,
            resolution: ResRange::any(),
            chunk_px: SetField::Any,
        }
    }
}

impl PointPattern {
    /// The same pattern once more.
    pub fn copied(&self) -> (r: Self)
        ensures
            r@ == self@,
    {
        PointPattern {
            crs: self.crs.copied(),
            resolution: self.resolution,
            chunk_px: self.chunk_px.copied(),
        }
    }

    pub fn intersect(&self, other: &Self) -> (r: Self)
        ensures
            r@ == self@.meet(other@),
    {
        PointPattern {
            crs: self.crs.intersect(&other.crs),
            resolution: self.resolution.intersect(&other.resolution),
            chunk_px: self.chunk_px.intersect(&other.chunk_px),
        }
    }

    pub fn is_empty(&self) -> (r: bool)
        ensures
            r == self@.empty(),
    {
        self.crs.is_empty() || self.resolution.is_empty() || self.chunk_px.is_empty()
    }

    /// Whether two patterns say the same.
    pub fn same_as(&self, other: &Self) -> (r: bool)
        ensures
            r == self@.equals(other@),
    {
        self.crs.same_as(&other.crs) && self.resolution.same_as(&other.resolution) && self.chunk_px.same_as(&other.chunk_px)
    }
}

/// The demands on a vector link. The resolution bounds the simplification
/// ladder; chunks tile as rasters do.
#[derive(Debug)]
pub struct VectorPattern {
    pub crs: SetField<Crs>,
    pub resolution: ResRange,
    pub chunk_px: SetField<u32>,
}

impl View for VectorPattern {
    type V = AreaModel;

    open spec fn view(&self) -> AreaModel {
        AreaModel {
            crs: self.crs@,
            resolution: self.resolution,
            chunk_px: self.chunk_px@,
        }
    }
}

impl Default for VectorPattern {
    fn default() -> (r: Self)
        ensures
            r@ == AreaModel::unbounded(),
    {
        VectorPattern {
            crs: SetField::Any,
            resolution: ResRange::any(),
            chunk_px: SetField::Any,
        }
    }
}

impl VectorPattern {
    /// The same pattern once more.
    pub fn copied(&self) -> (r: Self)
        ensures
            r@ == self@,
    {
        VectorPattern {
            crs: self.crs.copied(),
            resolution: self.resolution,
            chunk_px: self.chunk_px.copied(),
        }
    }

    pub fn intersect(&self, other: &Self) -> (r: Self)
        ensures
            r@ == self@.meet(other@),
    {
        VectorPattern {
            crs: self.crs.intersect(&other.crs),
            resolution: self.resolution.intersect(&other.resolution),
            chunk_px: self.chunk_px.intersect(&other.chunk_px),
        }
    }

    pub fn is_empty(&self) -> (r: bool)
        ensures
            r == self@.empty(),
    {
        self.crs.is_empty() || self.resolution.is_empty() || self.chunk_px.is_empty()
    }

    /// Whether two patterns say the same.
    pub fn same_as(&self, other: &Self) -> (r: bool)
        ensures
            r == self@.equals(other@),
    {
        self.crs.same_as(&other.crs) && self.resolution.same_as(&other.resolution) && self.chunk_px.same_as(&other.chunk_px)
    }
}

/// The demands on a tensor link. Channels count the planes; the chunk size
/// carries a model's input size where one is on the link.
#[derive(Debug)]
pub struct TensorPattern {
    pub dtype: SetField<TensorDtype>,
    pub channels: SetField<u16>,
    pub crs: SetField<Crs>,
    pub resolution: ResRange,
    pub chunk_px: SetField<u32>,
}

/// What such a pattern says.
#[verifier::ext_equal]
pub struct TensorModel {
    pub dtype: FieldModel<TensorDtype>,
    pub channels: FieldModel<u16>,
    pub crs: FieldModel<Crs>,
    pub resolution: ResRange,
    pub chunk_px: FieldModel<u32>,
}

impl TensorModel {
    pub open spec fn unbounded() -> TensorModel {
        TensorModel {
            dtype: FieldModel::Any,
            channels: FieldModel::Any,
            crs: FieldModel::Any,
            resolution: ResRange::unbounded(),
            chunk_px: FieldModel::Any,
        }
    }

    pub open spec fn meet(self, other: TensorModel) -> TensorModel {
        TensorModel {
            dtype: self.dtype.meet(other.dtype),
            channels: self.channels.meet(other.channels),
            crs: self.crs.meet(other.crs),
            resolution: self.resolution.meet(other.resolution),
            chunk_px: self.chunk_px.meet(other.chunk_px),
        }
    }

    pub open spec fn empty(self) -> bool {
        ||| self.dtype.empty()
        ||| self.channels.empty()
        ||| self.crs.empty()
        ||| self.resolution.empty()
        ||| self.chunk_px.empty()
    }

    pub open spec fn equals(self, other: TensorModel) -> bool {
        &&& self.dtype == other.dtype
        &&& self.channels == other.channels
        &&& self.crs == other.crs
        &&& self.resolution.equals(other.resolution)
        &&& self.chunk_px == other.chunk_px
    }
}

impl View for TensorPattern {
    type V = TensorModel;

    open spec fn view(&self) -> TensorModel {
        TensorModel {
            dtype: self.dtype@,
            channels: self.channels@,
            crs: self.crs@,
            resolution: self.resolution,
            chunk_px: self.chunk_px@,
        }
    }
}

impl Default for TensorPattern {
    fn default() -> (r: Self)
        ensures
            r@ == TensorModel::unbounded(),
    {
        TensorPattern {
            dtype: SetField::Any,
            channels: SetField::Any,
            crs: SetField::Any,
            resolution: ResRange::any(),
            chunk_px: SetField::Any,
        }
    }
}

impl TensorPattern {
    /// The same pattern once more.
    pub fn copied(&self) -> (r: Self)
        ensures
            r@ == self@,
    {
        TensorPattern {
            dtype: self.dtype.copied(),
            channels: self.channels.copied(),
            crs: self.crs.copied(),
            resolution: self.resolution,
            chunk_px: self.chunk_px.copied(),
        }
    }

    pub fn intersect(&self, other: &Self) -> (r: Self)
        ensures
            r@ == self@.meet(other@),
    {
        TensorPattern {
            dtype: self.dtype.intersect(&other.dtype),
            channels: self.channels.intersect(&other.channels),
            crs: self.crs.intersect(&other.crs),
            resolution: self.resolution.intersect(&other.resolution),
            chunk_px: self.chunk_px.intersect(&other.chunk_px),
        }
    }

    pub fn is_empty(&self) -> (r: bool)
        ensures
            r == self@.empty(),
    {
        self.dtype.is_empty() || self.channels.is_empty() || self.crs.is_empty() || self.resolution.is_empty() || self.chunk_px.is_empty()
    }

    /// Whether two patterns say the same.
    pub fn same_as(&self, other: &Self) -> (r: bool)
        ensures
            r == self@.equals(other@),
    {
        self.dtype.same_as(&other.dtype) && self.channels.same_as(&other.channels) && self.crs.same_as(&other.crs) && self.resolution.same_as(&other.resolution) && self.chunk_px.same_as(&other.chunk_px)
    }
}

/// The demands on a link of one kind. Two kinds never meet: a link has one.
#[derive(Debug)]
pub enum CapsPattern {
    Raster(RasterPattern),
    PointCloud(PointPattern),
    Vector(VectorPattern),
    Tensor(TensorPattern),
}

/// What a [`CapsPattern`] says.
#[verifier::ext_equal]
pub enum PatternModel {
    Raster(RasterModel),
    PointCloud(AreaModel),
    Vector(AreaModel),
    Tensor(TensorModel),
}

impl View for CapsPattern {
    type V = PatternModel;

    open spec fn view(&self) -> PatternModel {
        match *self {
            CapsPattern::Raster(r) => PatternModel::Raster(r@),
            CapsPattern::PointCloud(p) => PatternModel::PointCloud(p@),
            CapsPattern::Vector(v) => PatternModel::Vector(v@),
            CapsPattern::Tensor(t) => PatternModel::Tensor(t@),
        }
    }
}

/// The fields that every kind has, and the plane count where the kind has
/// one: what couples the two sides of a transform between kinds.
#[verifier::ext_equal]
pub struct CommonModel {
    pub crs: FieldModel<Crs>,
    pub resolution: ResRange,
    pub chunk_px: FieldModel<u32>,
    pub planes: FieldModel<u16>,
}

struct CommonFields {
    crs: SetField<Crs>,
    resolution: ResRange,
    chunk_px: SetField<u32>,
    planes: SetField<u16>,
}

impl CommonFields {
    spec fn model(&self) -> CommonModel {
        CommonModel {
            crs: self.crs@,
            resolution: self.resolution,
            chunk_px: self.chunk_px@,
            planes: self.planes@,
        }
    }
}

/// The fields that a derived transform hands through unchanged. The data
/// type only counts between two rasters; `bands` is the plane count, which
/// couples raster bands with tensor channels and is idle where a side has
/// no plane count.
#[derive(Clone, Copy, Debug, PartialEq, Eq, Structural)]
pub struct FieldMask {
    pub dtype: bool,
    pub bands: bool,
    pub crs: bool,
    pub resolution: bool,
    pub chunk_px: bool,
}

impl Default for FieldMask {
    fn default() -> (r: Self)
        ensures
            r == (FieldMask {
                dtype: false,
                bands: false,
                crs: false,
                resolution: false,
                chunk_px: false,
            }),
    {
        FieldMask { dtype: false, bands: false, crs: false, resolution: false, chunk_px: false }
    }
}

impl FieldMask {
    pub fn all() -> (r: Self)
        ensures
            r == (FieldMask {
                dtype: true,
                bands: true,
                crs: true,
                resolution: true,
                chunk_px: true,
            }),
    {
        FieldMask { dtype: true, bands: true, crs: true, resolution: true, chunk_px: true }
    }

    pub fn without_crs_resolution() -> (r: Self)
        ensures
            r == (FieldMask {
                dtype: true,
                bands: true,
                crs: false,
                resolution: false,
                chunk_px: true,
            }),
    {
        FieldMask { crs: false, resolution: false, ..FieldMask::all() }
    }
}

/// A field narrowed by another where the mask says so.
pub open spec fn masked<T: FieldValue>(
    on: bool,
    onto: FieldModel<T>,
    from: FieldModel<T>,
) -> FieldModel<T> {
    if on {
        onto.meet(from)
    } else {
        onto
    }
}

/// A range narrowed by another where the mask says so.
pub open spec fn masked_range(on: bool, onto: ResRange, from: ResRange) -> ResRange {
    if on {
        onto.meet(from)
    } else {
        onto
    }
}

impl AreaModel {
    pub open spec fn narrowed(self, from: CommonModel, mask: FieldMask) -> AreaModel {
        AreaModel {
            crs: masked(mask.crs, self.crs, from.crs),
            resolution: masked_range(mask.resolution, self.resolution, from.resolution),
            chunk_px: masked(mask.chunk_px, self.chunk_px, from.chunk_px),
        }
    }
}

impl PatternModel {
    /// Both patterns at once, where something is left of them.
    pub open spec fn meet(self, other: PatternModel) -> Option<PatternModel> {
        match (self, other) {
            (PatternModel::Raster(a), PatternModel::Raster(b)) => if a.meet(b).empty() {
                None
            } else {
                Some(PatternModel::Raster(a.meet(b)))
            },
            (PatternModel::PointCloud(a), PatternModel::PointCloud(b)) => if a.meet(b).empty() {
                None
            } else {
                Some(PatternModel::PointCloud(a.meet(b)))
            },
            (PatternModel::Vector(a), PatternModel::Vector(b)) => if a.meet(b).empty() {
                None
            } else {
                Some(PatternModel::Vector(a.meet(b)))
            },
            (PatternModel::Tensor(a), PatternModel::Tensor(b)) => if a.meet(b).empty() {
                None
            } else {
                Some(PatternModel::Tensor(a.meet(b)))
            },
            _ => None,
        }
    }

    pub open spec fn empty(self) -> bool {
        match self {
            PatternModel::Raster(r) => r.empty(),
            PatternModel::PointCloud(p) => p.empty(),
            PatternModel::Vector(v) => v.empty(),
            PatternModel::Tensor(t) => t.empty(),
        }
    }

    /// The patterns compare equal, resolutions as numbers.
    pub open spec fn equals(self, other: PatternModel) -> bool {
        match (self, other) {
            (PatternModel::Raster(a), PatternModel::Raster(b)) => a.equals(b),
            (PatternModel::PointCloud(a), PatternModel::PointCloud(b)) => a.equals(b),
            (PatternModel::Vector(a), PatternModel::Vector(b)) => a.equals(b),
            (PatternModel::Tensor(a), PatternModel::Tensor(b)) => a.equals(b),
            _ => false,
        }
    }

    pub open spec fn common(self) -> CommonModel {
        match self {
            PatternModel::Raster(r) => CommonModel {
                crs: r.crs,
                resolution: r.resolution,
                chunk_px: r.chunk_px,
                planes: r.bands,
            },
            PatternModel::PointCloud(p) => CommonModel {
                crs: p.crs,
                resolution: p.resolution,
                chunk_px: p.chunk_px,
                planes: FieldModel::Any,
            },
            PatternModel::Vector(v) => CommonModel {
                crs: v.crs,
                resolution: v.resolution,
                chunk_px: v.chunk_px,
                planes: FieldModel::Any,
            },
            PatternModel::Tensor(t) => CommonModel {
                crs: t.crs,
                resolution: t.resolution,
                chunk_px: t.chunk_px,
                planes: t.channels,
            },
        }
    }

    /// The masked common fields of `from` laid onto this pattern; the fields
    /// of its own kind stay.
    pub open spec fn project_common(self, from: CommonModel, mask: FieldMask) -> PatternModel {
        match self {
            PatternModel::Raster(r) => PatternModel::Raster(
                RasterModel {
                    dtype: r.dtype,
                    bands: masked(mask.bands, r.bands, from.planes),
                    crs: masked(mask.crs, r.crs, from.crs),
                    resolution: masked_range(mask.resolution, r.resolution, from.resolution),
                    chunk_px: masked(mask.chunk_px, r.chunk_px, from.chunk_px),
                },
            ),
            PatternModel::PointCloud(p) => PatternModel::PointCloud(p.narrowed(from, mask)),
            PatternModel::Vector(v) => PatternModel::Vector(v.narrowed(from, mask)),
            PatternModel::Tensor(t) => PatternModel::Tensor(
                TensorModel {
                    dtype: t.dtype,
                    channels: masked(mask.bands, t.channels, from.planes),
                    crs: masked(mask.crs, t.crs, from.crs),
                    resolution: masked_range(mask.resolution, t.resolution, from.resolution),
                    chunk_px: masked(mask.chunk_px, t.chunk_px, from.chunk_px),
                },
            ),
        }
    }
}

/// The masked fields of `from` laid onto `onto`: all fields between two
/// rasters, the common ones otherwise.
pub open spec fn projected(
    from: PatternModel,
    onto: PatternModel,
    mask: FieldMask,
) -> PatternModel {
    match (from, onto) {
        (PatternModel::Raster(f), PatternModel::Raster(o)) => PatternModel::Raster(
            RasterModel {
                dtype: masked(mask.dtype, o.dtype, f.dtype),
                bands: masked(mask.bands, o.bands, f.bands),
                crs: masked(mask.crs, o.crs, f.crs),
                resolution: masked_range(mask.resolution, o.resolution, f.resolution),
                chunk_px: masked(mask.chunk_px, o.chunk_px, f.chunk_px),
            },
        ),
        _ => onto.project_common(from.common(), mask),
    }
}

fn mask_field<T: FieldValue>(on: bool, onto: &SetField<T>, from: &SetField<T>) -> (r: SetField<T>)
    ensures
        r@ == masked(on, onto@, from@),
{
    if on {
        onto.intersect(from)
    } else {
        onto.copied()
    }
}

fn mask_range(on: bool, onto: &ResRange, from: &ResRange) -> (r: ResRange)
    ensures
        r == masked_range(on, *onto, *from),
{
    if on {
        onto.intersect(from)
    } else {
        *onto
    }
}

impl CapsPattern {
    /// The same pattern once more.
    pub fn copied(&self) -> (r: Self)
        ensures
            r@ == self@,
    {
        match self {
            CapsPattern::Raster(r) => CapsPattern::Raster(r.copied()),
            CapsPattern::PointCloud(p) => CapsPattern::PointCloud(p.copied()),
            CapsPattern::Vector(v) => CapsPattern::Vector(v.copied()),
            CapsPattern::Tensor(t) => CapsPattern::Tensor(t.copied()),
        }
    }

    pub fn intersect(&self, other: &Self) -> (r: Option<Self>)
        ensures
            r is Some == self@.meet(other@) is Some,
            r matches Some(p) ==> p@ == self@.meet(other@)->0,
    {
        match self {
            CapsPattern::Raster(a) => match other {
                CapsPattern::Raster(b) => {
                    let r = a.intersect(b);
                    if r.is_empty() {
                        None
                    } else {
                        Some(CapsPattern::Raster(r))
                    }
                },
                _ => None,
            },
            CapsPattern::PointCloud(a) => match other {
                CapsPattern::PointCloud(b) => {
                    let r = a.intersect(b);
                    if r.is_empty() {
                        None
                    } else {
                        Some(CapsPattern::PointCloud(r))
                    }
                },
                _ => None,
            },
            CapsPattern::Vector(a) => match other {
                CapsPattern::Vector(b) => {
                    let r = a.intersect(b);
                    if r.is_empty() {
                        None
                    } else {
                        Some(CapsPattern::Vector(r))
                    }
                },
                _ => None,
            },
            CapsPattern::Tensor(a) => match other {
                CapsPattern::Tensor(b) => {
                    let r = a.intersect(b);
                    if r.is_empty() {
                        None
                    } else {
                        Some(CapsPattern::Tensor(r))
                    }
                },
                _ => None,
            },
        }
    }

    pub fn is_empty(&self) -> (r: bool)
        ensures
            r == self@.empty(),
    {
        match self {
            CapsPattern::Raster(r) => r.is_empty(),
            CapsPattern::PointCloud(p) => p.is_empty(),
            CapsPattern::Vector(v) => v.is_empty(),
            CapsPattern::Tensor(t) => t.is_empty(),
        }
    }

    /// Whether two patterns say the same.
    pub fn same_as(&self, other: &Self) -> (r: bool)
        ensures
            r == self@.equals(other@),
    {
        match self {
            CapsPattern::Raster(a) => match other {
                CapsPattern::Raster(b) => a.same_as(b),
                _ => false,
            },
            CapsPattern::PointCloud(a) => match other {
                CapsPattern::PointCloud(b) => a.same_as(b),
                _ => false,
            },
            CapsPattern::Vector(a) => match other {
                CapsPattern::Vector(b) => a.same_as(b),
                _ => false,
            },
            CapsPattern::Tensor(a) => match other {
                CapsPattern::Tensor(b) => a.same_as(b),
                _ => false,
            },
        }
    }

    fn common(&self) -> (r: CommonFields)
        ensures
            r.model() == self@.common(),
    {
        match self {
            CapsPattern::Raster(r) => CommonFields {
                crs: r.crs.copied(),
                resolution: r.resolution,
                chunk_px: r.chunk_px.copied(),
                planes: r.bands.copied(),
            },
            CapsPattern::PointCloud(p) => CommonFields {
                crs: p.crs.copied(),
                resolution: p.resolution,
                chunk_px: p.chunk_px.copied(),
                planes: SetField::Any,
            },
            CapsPattern::Vector(v) => CommonFields {
                crs: v.crs.copied(),
                resolution: v.resolution,
                chunk_px: v.chunk_px.copied(),
                planes: SetField::Any,
            },
            CapsPattern::Tensor(t) => CommonFields {
                crs: t.crs.copied(),
                resolution: t.resolution,
                chunk_px: t.chunk_px.copied(),
                planes: t.channels.copied(),
            },
        }
    }

    fn project_common(&self, from: &CommonFields, mask: FieldMask) -> (r: CapsPattern)
        ensures
            r@ == self@.project_common(from.model(), mask),
    {
        match self {
            CapsPattern::Raster(r) => CapsPattern::Raster(
                RasterPattern {
                    dtype: r.dtype.copied(),
                    bands: mask_field(mask.bands, &r.bands, &from.planes),
                    crs: mask_field(mask.crs, &r.crs, &from.crs),
                    resolution: mask_range(mask.resolution, &r.resolution, &from.resolution),
                    chunk_px: mask_field(mask.chunk_px, &r.chunk_px, &from.chunk_px),
                },
            ),
            CapsPattern::PointCloud(p) => CapsPattern::PointCloud(
                PointPattern {
                    crs: mask_field(mask.crs, &p.crs, &from.crs),
                    resolution: mask_range(mask.resolution, &p.resolution, &from.resolution),
                    chunk_px: mask_field(mask.chunk_px, &p.chunk_px, &from.chunk_px),
                },
            ),
            CapsPattern::Vector(v) => CapsPattern::Vector(
                VectorPattern {
                    crs: mask_field(mask.crs, &v.crs, &from.crs),
                    resolution: mask_range(mask.resolution, &v.resolution, &from.resolution),
                    chunk_px: mask_field(mask.chunk_px, &v.chunk_px, &from.chunk_px),
                },
            ),
            CapsPattern::Tensor(t) => CapsPattern::Tensor(
                TensorPattern {
                    dtype: t.dtype.copied(),
                    channels: mask_field(mask.bands, &t.channels, &from.planes),
                    crs: mask_field(mask.crs, &t.crs, &from.crs),
                    resolution: mask_range(mask.resolution, &t.resolution, &from.resolution),
                    chunk_px: mask_field(mask.chunk_px, &t.chunk_px, &from.chunk_px),
                },
            ),
        }
    }
}

/// Lay `from`'s masked fields onto `onto` by intersection and keep `onto`
/// elsewhere. Across kinds only the common fields project.
pub fn mask_project(from: &CapsPattern, onto: &CapsPattern, mask: FieldMask) -> (r: CapsPattern)
    ensures
        r@ == projected(from@, onto@, mask),
{
    match from {
        CapsPattern::Raster(f) => match onto {
            CapsPattern::Raster(o) => CapsPattern::Raster(
                RasterPattern {
                    dtype: mask_field(mask.dtype, &o.dtype, &f.dtype),
                    bands: mask_field(mask.bands, &o.bands, &f.bands),
                    crs: mask_field(mask.crs, &o.crs, &f.crs),
                    resolution: mask_range(mask.resolution, &o.resolution, &f.resolution),
                    chunk_px: mask_field(mask.chunk_px, &o.chunk_px, &f.chunk_px),
                },
            ),
            _ => onto.project_common(&from.common(), mask),
        },
        _ => onto.project_common(&from.common(), mask),
    }
}

/// The fixed caps of a raster link.
#[derive(Clone, Copy, Debug, PartialEq, Eq, Structural)]
pub struct RasterCaps {
    pub dtype: Dtype,
    pub bands: u16,
    pub crs: Crs,
    pub resolution: ResRange,
    pub chunk_px: u32,
}

/// The fixed caps of a point cloud link.
#[derive(Clone, Copy, Debug, PartialEq, Eq, Structural)]
pub struct PointCaps {
    pub crs: Crs,
    pub resolution: ResRange,
    pub chunk_px: u32,
}

/// The fixed caps of a vector link.
#[derive(Clone, Copy, Debug, PartialEq, Eq, Structural)]
pub struct VectorCaps {
    pub crs: Crs,
    pub resolution: ResRange,
    pub chunk_px: u32,
}

/// The fixed caps of a tensor link.
#[derive(Clone, Copy, Debug, PartialEq, Eq, Structural)]
pub struct TensorCaps {
    pub dtype: TensorDtype,
    pub channels: u16,
    pub crs: Crs,
    pub resolution: ResRange,
    pub chunk_px: u32,
}

/// The fixed caps of a link, handed to its elements after negotiation.
#[derive(Clone, Copy, Debug, PartialEq, Eq, Structural)]
pub enum Caps {
    Raster(RasterCaps),
    PointCloud(PointCaps),
    Vector(VectorCaps),
    Tensor(TensorCaps),
}

impl Caps {
    pub open spec fn crs_of(self) -> Crs {
        match self {
            Caps::Raster(r) => r.crs,
            Caps::PointCloud(p) => p.crs,
            Caps::Vector(v) => v.crs,
            Caps::Tensor(t) => t.crs,
        }
    }

    pub open spec fn chunk_px_of(self) -> u32 {
        match self {
            Caps::Raster(r) => r.chunk_px,
            Caps::PointCloud(p) => p.chunk_px,
            Caps::Vector(v) => v.chunk_px,
            Caps::Tensor(t) => t.chunk_px,
        }
    }

    /// The pattern that these caps and no others of other fields meet.
    pub open spec fn as_pattern(self) -> PatternModel {
        match self {
            Caps::Raster(r) => PatternModel::Raster(
                RasterModel {
                    dtype: FieldModel::OneOf(seq![r.dtype]),
                    bands: FieldModel::OneOf(seq![r.bands]),
                    crs: FieldModel::OneOf(seq![r.crs]),
                    resolution: r.resolution,
                    chunk_px: FieldModel::OneOf(seq![r.chunk_px]),
                },
            ),
            Caps::PointCloud(p) => PatternModel::PointCloud(
                AreaModel {
                    crs: FieldModel::OneOf(seq![p.crs]),
                    resolution: p.resolution,
                    chunk_px: FieldModel::OneOf(seq![p.chunk_px]),
                },
            ),
            Caps::Vector(v) => PatternModel::Vector(
                AreaModel {
                    crs: FieldModel::OneOf(seq![v.crs]),
                    resolution: v.resolution,
                    chunk_px: FieldModel::OneOf(seq![v.chunk_px]),
                },
            ),
            Caps::Tensor(t) => PatternModel::Tensor(
                TensorModel {
                    dtype: FieldModel::OneOf(seq![t.dtype]),
                    channels: FieldModel::OneOf(seq![t.channels]),
                    crs: FieldModel::OneOf(seq![t.crs]),
                    resolution: t.resolution,
                    chunk_px: FieldModel::OneOf(seq![t.chunk_px]),
                },
            ),
        }
    }

    /// The caps compare equal, resolutions as numbers.
    pub open spec fn equals(self, other: Caps) -> bool {
        match (self, other) {
            (Caps::Raster(a), Caps::Raster(b)) => a.dtype == b.dtype && a.bands == b.bands && a.crs
                == b.crs && a.resolution.equals(b.resolution) && a.chunk_px == b.chunk_px,
            (Caps::PointCloud(a), Caps::PointCloud(b)) => a.crs == b.crs && a.resolution.equals(
                b.resolution,
            ) && a.chunk_px == b.chunk_px,
            (Caps::Vector(a), Caps::Vector(b)) => a.crs == b.crs && a.resolution.equals(
                b.resolution,
            ) && a.chunk_px == b.chunk_px,
            (Caps::Tensor(a), Caps::Tensor(b)) => a.dtype == b.dtype && a.channels == b.channels
                && a.crs == b.crs && a.resolution.equals(b.resolution) && a.chunk_px == b.chunk_px,
            _ => false,
        }
    }

    /// The raster caps of a raster link.
    pub fn raster(&self) -> (r: &RasterCaps)
        requires
            self is Raster,
        ensures
            *self == Caps::Raster(*r),
    {
        match self {
            Caps::Raster(r) => r,
            _ => vstd::pervasive::unreached(),
        }
    }

    /// The point cloud caps of a point cloud link.
    pub fn point(&self) -> (r: &PointCaps)
        requires
            self is PointCloud,
        ensures
            *self == Caps::PointCloud(*r),
    {
        match self {
            Caps::PointCloud(p) => p,
            _ => vstd::pervasive::unreached(),
        }
    }

    /// The vector caps of a vector link.
    pub fn vector(&self) -> (r: &VectorCaps)
        requires
            self is Vector,
        ensures
            *self == Caps::Vector(*r),
    {
        match self {
            Caps::Vector(v) => v,
            _ => vstd::pervasive::unreached(),
        }
    }

    /// The tensor caps of a tensor link.
    pub fn tensor(&self) -> (r: &TensorCaps)
        requires
            self is Tensor,
        ensures
            *self == Caps::Tensor(*r),
    {
        match self {
            Caps::Tensor(t) => t,
            _ => vstd::pervasive::unreached(),
        }
    }

    pub fn crs(&self) -> (r: Crs)
        ensures
            r == self.crs_of(),
    {
        match self {
            Caps::Raster(r) => r.crs,
            Caps::PointCloud(p) => p.crs,
            Caps::Vector(v) => v.crs,
            Caps::Tensor(t) => t.crs,
        }
    }

    pub fn chunk_px(&self) -> (r: u32)
        ensures
            r == self.chunk_px_of(),
    {
        match self {
            Caps::Raster(r) => r.chunk_px,
            Caps::PointCloud(p) => p.chunk_px,
            Caps::Vector(v) => v.chunk_px,
            Caps::Tensor(t) => t.chunk_px,
        }
    }

    /// These caps as a pattern, for what derives from them downstream.
    pub fn pattern(&self) -> (r: CapsPattern)
        ensures
            r@ == self.as_pattern(),
    {
        match self {
            Caps::Raster(r) => CapsPattern::Raster(
                RasterPattern {
                    dtype: SetField::one(r.dtype),
                    bands: SetField::one(r.bands),
                    crs: SetField::one(r.crs),
                    resolution: r.resolution,
                    chunk_px: SetField::one(r.chunk_px),
                },
            ),
            Caps::PointCloud(p) => CapsPattern::PointCloud(
                PointPattern {
                    crs: SetField::one(p.crs),
                    resolution: p.resolution,
                    chunk_px: SetField::one(p.chunk_px),
                },
            ),
            Caps::Vector(v) => CapsPattern::Vector(
                VectorPattern {
                    crs: SetField::one(v.crs),
                    resolution: v.resolution,
                    chunk_px: SetField::one(v.chunk_px),
                },
            ),
            Caps::Tensor(t) => CapsPattern::Tensor(
                TensorPattern {
                    dtype: SetField::one(t.dtype),
                    channels: SetField::one(t.channels),
                    crs: SetField::one(t.crs),
                    resolution: t.resolution,
                    chunk_px: SetField::one(t.chunk_px),
                },
            ),
        }
    }

    /// Whether two fixed caps compare equal.
    pub fn same_as(&self, other: &Caps) -> (r: bool)
        ensures
            r == self.equals(*other),
    {
        match self {
            Caps::Raster(a) => match other {
                Caps::Raster(b) => a.dtype == b.dtype && a.bands == b.bands && a.crs == b.crs
                    && a.resolution.same_as(&b.resolution) && a.chunk_px == b.chunk_px,
                _ => false,
            },
            Caps::PointCloud(a) => match other {
                Caps::PointCloud(b) => a.crs == b.crs && a.resolution.same_as(&b.resolution)
                    && a.chunk_px == b.chunk_px,
                _ => false,
            },
            Caps::Vector(a) => match other {
                Caps::Vector(b) => a.crs == b.crs && a.resolution.same_as(&b.resolution)
                    && a.chunk_px == b.chunk_px,
                _ => false,
            },
            Caps::Tensor(a) => match other {
                Caps::Tensor(b) => a.dtype == b.dtype && a.channels == b.channels && a.crs == b.crs
                    && a.resolution.same_as(&b.resolution) && a.chunk_px == b.chunk_px,
                _ => false,
            },
        }
    }

    /// What goes into the fingerprint, write by write: the kind, then every
    /// field that can differ at its own width, least byte first.
    pub open spec fn identity_bytes(self) -> Seq<Seq<u8>> {
        match self {
            Caps::Raster(r) => seq![
                bytes::le(0, 1),
                bytes::le(r.bands as int, 2),
                bytes::le(r.crs.0 as int, 4),
                bytes::le(r.chunk_px as int, 4),
                bytes::le(r.resolution.min.bits as int, 8),
                bytes::le(r.resolution.max.bits as int, 8),
            ],
            Caps::PointCloud(p) => seq![
                bytes::le(1, 1),
                bytes::le(p.crs.0 as int, 4),
                bytes::le(p.chunk_px as int, 4),
                bytes::le(p.resolution.min.bits as int, 8),
                bytes::le(p.resolution.max.bits as int, 8),
            ],
            Caps::Vector(v) => seq![
                bytes::le(2, 1),
                bytes::le(v.crs.0 as int, 4),
                bytes::le(v.chunk_px as int, 4),
                bytes::le(v.resolution.min.bits as int, 8),
                bytes::le(v.resolution.max.bits as int, 8),
            ],
            Caps::Tensor(t) => seq![
                bytes::le(3, 1),
                bytes::le(t.channels as int, 2),
                bytes::le(t.crs.0 as int, 4),
                bytes::le(t.chunk_px as int, 4),
                bytes::le(t.resolution.min.bits as int, 8),
                bytes::le(t.resolution.max.bits as int, 8),
            ],
        }
    }

    /// Tells cache entries apart when a node's caps change between two
    /// negotiations. A data type has one value and is not hashed.
    pub fn fingerprint(&self) -> (r: u64)
        ensures
            r == std::hash::DefaultHasher::spec_finish(self.identity_bytes()),
    {
        let mut h = std::hash::DefaultHasher::new();
        match self {
            Caps::Raster(r) => {
                write_le(&mut h, 0, 1);
                write_le(&mut h, r.bands as u64, 2);
                write_le(&mut h, r.crs.0 as u64, 4);
                write_le(&mut h, r.chunk_px as u64, 4);
                write_le(&mut h, r.resolution.min.bits, 8);
                write_le(&mut h, r.resolution.max.bits, 8);
            },
            Caps::PointCloud(p) => {
                write_le(&mut h, 1, 1);
                write_le(&mut h, p.crs.0 as u64, 4);
                write_le(&mut h, p.chunk_px as u64, 4);
                write_le(&mut h, p.resolution.min.bits, 8);
                write_le(&mut h, p.resolution.max.bits, 8);
            },
            Caps::Vector(v) => {
                write_le(&mut h, 2, 1);
                write_le(&mut h, v.crs.0 as u64, 4);
                write_le(&mut h, v.chunk_px as u64, 4);
                write_le(&mut h, v.resolution.min.bits, 8);
                write_le(&mut h, v.resolution.max.bits, 8);
            },
            Caps::Tensor(t) => {
                write_le(&mut h, 3, 1);
                write_le(&mut h, t.channels as u64, 2);
                write_le(&mut h, t.crs.0 as u64, 4);
                write_le(&mut h, t.chunk_px as u64, 4);
                write_le(&mut h, t.resolution.min.bits, 8);
                write_le(&mut h, t.resolution.max.bits, 8);
            },
        }
        assert(h@ =~= self.identity_bytes());
        std::hash::Hasher::finish(&h)
    }
}

/// Hash a number of so many bytes, least byte first.
fn write_le(h: &mut std::hash::DefaultHasher, v: u64, n: usize)
    requires
        n <= 8,
    ensures
        final(h)@ == old(h)@.push(bytes::le(v as int, n as nat)),
{
    let mut buf: Vec<u8> = Vec::new();
    bytes::push_le(&mut buf, v, n);
    assert(buf@ =~= bytes::le(v as int, n as nat));
    std::hash::Hasher::write(h, buf.as_slice());
}

/// Fixed caps that are hashed alike are the same caps.
pub proof fn identity_bytes_separate(a: Caps, b: Caps)
    requires
        a.identity_bytes() == b.identity_bytes(),
    ensures
        a == b,
{
    let x = a.identity_bytes();
    let y = b.identity_bytes();
    reveal_with_fuel(bytes::span_of, 3);
    bytes::le_reads_back(kind_of(a), 1);
    bytes::le_reads_back(kind_of(b), 1);
    assert(x[0] == y[0]);
    assert(kind_of(a) == kind_of(b));
    match (a, b) {
        (Caps::Raster(r), Caps::Raster(s)) => {
            assert(x[1] == y[1] && x[2] == y[2] && x[3] == y[3] && x[4] == y[4] && x[5] == y[5]);
            same_number(r.bands as int, s.bands as int, 2);
            same_number(r.crs.0 as int, s.crs.0 as int, 4);
            same_number(r.chunk_px as int, s.chunk_px as int, 4);
            same_number(r.resolution.min.bits as int, s.resolution.min.bits as int, 8);
            same_number(r.resolution.max.bits as int, s.resolution.max.bits as int, 8);
        },
        (Caps::Tensor(r), Caps::Tensor(s)) => {
            assert(x[1] == y[1] && x[2] == y[2] && x[3] == y[3] && x[4] == y[4] && x[5] == y[5]);
            same_number(r.channels as int, s.channels as int, 2);
            same_number(r.crs.0 as int, s.crs.0 as int, 4);
            same_number(r.chunk_px as int, s.chunk_px as int, 4);
            same_number(r.resolution.min.bits as int, s.resolution.min.bits as int, 8);
            same_number(r.resolution.max.bits as int, s.resolution.max.bits as int, 8);
        },
        (Caps::PointCloud(r), Caps::PointCloud(s)) => {
            assert(x[1] == y[1] && x[2] == y[2] && x[3] == y[3] && x[4] == y[4]);
            same_number(r.crs.0 as int, s.crs.0 as int, 4);
            same_number(r.chunk_px as int, s.chunk_px as int, 4);
            same_number(r.resolution.min.bits as int, s.resolution.min.bits as int, 8);
            same_number(r.resolution.max.bits as int, s.resolution.max.bits as int, 8);
        },
        (Caps::Vector(r), Caps::Vector(s)) => {
            assert(x[1] == y[1] && x[2] == y[2] && x[3] == y[3] && x[4] == y[4]);
            same_number(r.crs.0 as int, s.crs.0 as int, 4);
            same_number(r.chunk_px as int, s.chunk_px as int, 4);
            same_number(r.resolution.min.bits as int, s.resolution.min.bits as int, 8);
            same_number(r.resolution.max.bits as int, s.resolution.max.bits as int, 8);
        },
        _ => {},
    }
}

spec fn kind_of(c: Caps) -> int {
    match c {
        Caps::Raster(_) => 0,
        Caps::PointCloud(_) => 1,
        Caps::Vector(_) => 2,
        Caps::Tensor(_) => 3,
    }
}

proof fn same_number(a: int, b: int, n: nat)
    requires
        n == 2 || n == 4 || n == 8,
        0 <= a,
        0 <= b,
        n == 2 ==> a < 0x10000 && b < 0x10000,
        n == 4 ==> a < 0x1_0000_0000 && b < 0x1_0000_0000,
        n == 8 ==> a < 0x1_0000_0000_0000_0000 && b < 0x1_0000_0000_0000_0000,
        bytes::le(a, n) == bytes::le(b, n),
    ensures
        a == b,
{
    reveal_with_fuel(bytes::span_of, 10);
    bytes::le_reads_back(a, n);
    bytes::le_reads_back(b, n);
}

/// Alternatives in order of preference, the vocabulary of negotiation.
#[derive(Debug)]
pub struct CapsSet {
    pub alternatives: Vec<CapsPattern>,
}

impl View for CapsSet {
    type V = Seq<PatternModel>;

    open spec fn view(&self) -> Seq<PatternModel> {
        models(self.alternatives@)
    }
}

/// What a list of patterns says.
pub open spec fn models(patterns: Seq<CapsPattern>) -> Seq<PatternModel> {
    Seq::new(patterns.len(), |i: int| patterns[i]@)
}

/// Whether a pattern compares equal to one of a list.
pub open spec fn listed(set: Seq<PatternModel>, p: PatternModel) -> bool {
    exists|i: int| 0 <= i < set.len() && (#[trigger] set[i]).equals(p)
}

/// A list with a pattern behind it, unless the list has it already.
pub open spec fn with_new(set: Seq<PatternModel>, p: PatternModel) -> Seq<PatternModel> {
    if listed(set, p) {
        set
    } else {
        set.push(p)
    }
}

/// What `a` leaves of each of `bs`, in order, added to a list.
pub open spec fn row_meet(
    set: Seq<PatternModel>,
    a: PatternModel,
    bs: Seq<PatternModel>,
) -> Seq<PatternModel>
    decreases bs.len(),
{
    if bs.len() == 0 {
        set
    } else {
        let before = row_meet(set, a, bs.drop_last());
        match a.meet(bs.last()) {
            Some(p) => with_new(before, p),
            None => before,
        }
    }
}

/// The intersection of two sets: what each pair of alternatives leaves, the
/// first set's order first, each pattern once.
pub open spec fn set_meet(xs: Seq<PatternModel>, ys: Seq<PatternModel>) -> Seq<PatternModel>
    decreases xs.len(),
{
    if xs.len() == 0 {
        Seq::empty()
    } else {
        row_meet(set_meet(xs.drop_last(), ys), xs.last(), ys)
    }
}

/// The set that no demand narrows, over every kind.
pub open spec fn any_model() -> Seq<PatternModel> {
    seq![
        PatternModel::Raster(RasterModel::unbounded()),
        PatternModel::PointCloud(AreaModel::unbounded()),
        PatternModel::Vector(AreaModel::unbounded()),
        PatternModel::Tensor(TensorModel::unbounded()),
    ]
}

/// The caps that a pattern fixes: the preferred value of each field; where
/// a field names none, the kind's only data type, one plane and chunks of
/// 256 pixels. A reference system has no fallback.
pub open spec fn fixed_caps(p: PatternModel) -> Option<Caps> {
    match p {
        PatternModel::Raster(r) => match r.crs.preferred() {
            Some(crs) => Some(
                Caps::Raster(
                    RasterCaps {
                        dtype: r.dtype.preferred_or(Dtype::F64),
                        bands: r.bands.preferred_or(1),
                        crs,
                        resolution: r.resolution,
                        chunk_px: r.chunk_px.preferred_or(256),
                    },
                ),
            ),
            None => None,
        },
        PatternModel::PointCloud(q) => match q.crs.preferred() {
            Some(crs) => Some(
                Caps::PointCloud(
                    PointCaps {
                        crs,
                        resolution: q.resolution,
                        chunk_px: q.chunk_px.preferred_or(256),
                    },
                ),
            ),
            None => None,
        },
        PatternModel::Vector(v) => match v.crs.preferred() {
            Some(crs) => Some(
                Caps::Vector(
                    VectorCaps {
                        crs,
                        resolution: v.resolution,
                        chunk_px: v.chunk_px.preferred_or(256),
                    },
                ),
            ),
            None => None,
        },
        PatternModel::Tensor(t) => match t.crs.preferred() {
            Some(crs) => Some(
                Caps::Tensor(
                    TensorCaps {
                        dtype: t.dtype.preferred_or(TensorDtype::F32),
                        channels: t.channels.preferred_or(1),
                        crs,
                        resolution: t.resolution,
                        chunk_px: t.chunk_px.preferred_or(256),
                    },
                ),
            ),
            None => None,
        },
    }
}

impl CapsPattern {
    /// The caps that this pattern fixes.
    pub fn fixate(&self) -> (r: Option<Caps>)
        ensures
            r == fixed_caps(self@),
    {
        match self {
            CapsPattern::Raster(p) => match p.crs.fixate() {
                Some(crs) => Some(
                    Caps::Raster(
                        RasterCaps {
                            dtype: p.dtype.fixate_or(Dtype::F64),
                            bands: p.bands.fixate_or(1),
                            crs,
                            resolution: p.resolution,
                            chunk_px: p.chunk_px.fixate_or(256),
                        },
                    ),
                ),
                None => None,
            },
            CapsPattern::PointCloud(p) => match p.crs.fixate() {
                Some(crs) => Some(
                    Caps::PointCloud(
                        PointCaps {
                            crs,
                            resolution: p.resolution,
                            chunk_px: p.chunk_px.fixate_or(256),
                        },
                    ),
                ),
                None => None,
            },
            CapsPattern::Vector(p) => match p.crs.fixate() {
                Some(crs) => Some(
                    Caps::Vector(
                        VectorCaps {
                            crs,
                            resolution: p.resolution,
                            chunk_px: p.chunk_px.fixate_or(256),
                        },
                    ),
                ),
                None => None,
            },
            CapsPattern::Tensor(p) => match p.crs.fixate() {
                Some(crs) => Some(
                    Caps::Tensor(
                        TensorCaps {
                            dtype: p.dtype.fixate_or(TensorDtype::F32),
                            channels: p.channels.fixate_or(1),
                            crs,
                            resolution: p.resolution,
                            chunk_px: p.chunk_px.fixate_or(256),
                        },
                    ),
                ),
                None => None,
            },
        }
    }
}

impl CapsSet {
    pub fn one(p: CapsPattern) -> (r: Self)
        ensures
            r@ == seq![p@],
    {
        let mut alternatives: Vec<CapsPattern> = Vec::new();
        alternatives.push(p);
        let r = CapsSet { alternatives };
        assert(r@ =~= seq![p@]);
        r
    }

    pub fn any_raster() -> (r: Self)
        ensures
            r@ == seq![PatternModel::Raster(RasterModel::unbounded())],
    {
        CapsSet::one(CapsPattern::Raster(RasterPattern::default()))
    }

    pub fn any_vector() -> (r: Self)
        ensures
            r@ == seq![PatternModel::Vector(AreaModel::unbounded())],
    {
        CapsSet::one(CapsPattern::Vector(VectorPattern::default()))
    }

    /// No demand over any kind: what negotiation starts each link from.
    pub fn any() -> (r: Self)
        ensures
            r@ == any_model(),
    {
        let mut alternatives: Vec<CapsPattern> = Vec::new();
        alternatives.push(CapsPattern::Raster(RasterPattern::default()));
        alternatives.push(CapsPattern::PointCloud(PointPattern::default()));
        alternatives.push(CapsPattern::Vector(VectorPattern::default()));
        alternatives.push(CapsPattern::Tensor(TensorPattern::default()));
        let r = CapsSet { alternatives };
        assert(r@ =~= any_model());
        r
    }

    /// The same set once more.
    pub fn copied(&self) -> (r: Self)
        ensures
            r@ == self@,
    {
        let mut alternatives: Vec<CapsPattern> = Vec::new();
        for i in 0..self.alternatives.len()
            invariant
                alternatives@.len() == i,
                forall|k: int| 0 <= k < i ==> (#[trigger] alternatives@[k])@ == self@[k],
        {
            alternatives.push(self.alternatives[i].copied());
        }
        let r = CapsSet { alternatives };
        assert(r@ =~= self@);
        r
    }

    fn lists(&self, p: &CapsPattern) -> (r: bool)
        ensures
            r == listed(self@, p@),
    {
        for i in 0..self.alternatives.len()
            invariant
                forall|k: int| 0 <= k < i ==> !(#[trigger] self@[k]).equals(p@),
        {
            if self.alternatives[i].same_as(p) {
                assert(self@[i as int].equals(p@));
                return true;
            }
        }
        false
    }

    fn add_new(&mut self, p: CapsPattern)
        ensures
            final(self)@ == with_new(old(self)@, p@),
    {
        if !self.lists(&p) {
            self.alternatives.push(p);
        }
        assert(self@ =~= with_new(old(self)@, p@));
    }

    pub fn intersect(&self, other: &Self) -> (r: Self)
        ensures
            r@ == set_meet(self@, other@),
    {
        let mut r = CapsSet { alternatives: Vec::new() };
        assert(r@ =~= set_meet(self@.take(0), other@));
        for i in 0..self.alternatives.len()
            invariant
                r@ == set_meet(self@.take(i as int), other@),
        {
            let ghost before = r@;
            assert(other@.take(0) =~= Seq::empty());
            for j in 0..other.alternatives.len()
                invariant
                    i < self.alternatives.len(),
                    r@ == row_meet(before, self@[i as int], other@.take(j as int)),
            {
                assert(other@.take(j as int + 1).drop_last() =~= other@.take(j as int));
                if let Some(p) = self.alternatives[i].intersect(&other.alternatives[j]) {
                    r.add_new(p);
                }
            }
            assert(other@.take(other@.len() as int) =~= other@);
            assert(self@.take(i as int + 1).drop_last() =~= self@.take(i as int));
        }
        assert(self@.take(self@.len() as int) =~= self@);
        r
    }

    pub fn is_empty(&self) -> (r: bool)
        ensures
            r == (self@.len() == 0),
    {
        self.alternatives.len() == 0
    }

    /// Fixed caps of the first alternative.
    pub fn fixate(&self) -> (r: Option<Caps>)
        ensures
            r == (if self@.len() == 0 {
                None
            } else {
                fixed_caps(self@[0])
            }),
    {
        if self.alternatives.len() == 0 {
            None
        } else {
            self.alternatives[0].fixate()
        }
    }

    /// Whether two sets say the same, alternative by alternative.
    pub fn same_as(&self, other: &Self) -> (r: bool)
        ensures
            r == same_set(self@, other@),
    {
        if self.alternatives.len() != other.alternatives.len() {
            return false;
        }
        for i in 0..self.alternatives.len()
            invariant
                self@.len() == other@.len(),
                forall|k: int| 0 <= k < i ==> (#[trigger] self@[k]).equals(other@[k]),
        {
            if !self.alternatives[i].same_as(&other.alternatives[i]) {
                assert(!self@[i as int].equals(other@[i as int]));
                return false;
            }
        }
        true
    }
}

/// Two sets say the same, alternative by alternative.
pub open spec fn same_set(a: Seq<PatternModel>, b: Seq<PatternModel>) -> bool {
    a.len() == b.len() && forall|k: int| 0 <= k < a.len() ==> (#[trigger] a[k]).equals(b[k])
}

/// What an element demands of its input link and offers on its output link.
#[derive(Debug)]
pub enum Constraint {
    /// A source: no input.
    Produces(CapsSet),
    /// The output equals the input, narrowed to a set.
    Identity(CapsSet),
    /// The output derives from the input: the masked fields pass through and
    /// the output pattern pins the others. Input and output may differ in
    /// kind.
    Derived { input: CapsSet, passthrough: FieldMask, output: CapsPattern },
}

/// What a [`Constraint`] says.
#[verifier::ext_equal]
pub enum ConstraintModel {
    Produces(Seq<PatternModel>),
    Identity(Seq<PatternModel>),
    Derived { input: Seq<PatternModel>, passthrough: FieldMask, output: PatternModel },
}

impl View for Constraint {
    type V = ConstraintModel;

    open spec fn view(&self) -> ConstraintModel {
        match *self {
            Constraint::Produces(set) => ConstraintModel::Produces(set@),
            Constraint::Identity(set) => ConstraintModel::Identity(set@),
            Constraint::Derived { input, passthrough, output } => ConstraintModel::Derived {
                input: input@,
                passthrough,
                output: output@,
            },
        }
    }
}

/// Each alternative laid onto the output pattern.
pub open spec fn derived_outputs(
    inputs: Seq<PatternModel>,
    output: PatternModel,
    mask: FieldMask,
) -> Seq<PatternModel> {
    Seq::new(inputs.len(), |i: int| projected(inputs[i], output, mask))
}

/// What is left of an input alternative under the first pin that leaves
/// anything.
pub open spec fn first_pinned(
    input: PatternModel,
    pins: Seq<PatternModel>,
    mask: FieldMask,
) -> Option<PatternModel>
    decreases pins.len(),
{
    if pins.len() == 0 {
        None
    } else if !projected(pins[0], input, mask).empty() {
        Some(projected(pins[0], input, mask))
    } else {
        first_pinned(input, pins.drop_first(), mask)
    }
}

/// The input alternatives that some pin leaves something of, each narrowed
/// by the first such pin.
pub open spec fn pinned_inputs(
    inputs: Seq<PatternModel>,
    pins: Seq<PatternModel>,
    mask: FieldMask,
) -> Seq<PatternModel>
    decreases inputs.len(),
{
    if inputs.len() == 0 {
        Seq::empty()
    } else {
        let before = pinned_inputs(inputs.drop_last(), pins, mask);
        match first_pinned(inputs.last(), pins, mask) {
            Some(p) => before.push(p),
            None => before,
        }
    }
}

impl ConstraintModel {
    /// What the constraint accepts on its input link.
    pub open spec fn accepts(self) -> Seq<PatternModel> {
        match self {
            ConstraintModel::Produces(_) => any_model(),
            ConstraintModel::Identity(set) => set,
            ConstraintModel::Derived { input, .. } => input,
        }
    }

    /// What the constraint can put on its output link given its input link.
    pub open spec fn outputs(self, input_link: Seq<PatternModel>) -> Seq<PatternModel> {
        match self {
            ConstraintModel::Produces(set) => set,
            ConstraintModel::Identity(set) => set_meet(input_link, set),
            ConstraintModel::Derived { input, passthrough, output } => derived_outputs(
                set_meet(input_link, input),
                output,
                passthrough,
            ),
        }
    }

    /// What a pin on the output link leaves of the input link. Only the
    /// fields that pass through couple backward.
    pub open spec fn narrowed(
        self,
        input_link: Seq<PatternModel>,
        output_pin: Seq<PatternModel>,
    ) -> Seq<PatternModel> {
        match self {
            ConstraintModel::Produces(_) => input_link,
            ConstraintModel::Identity(_) => set_meet(input_link, output_pin),
            ConstraintModel::Derived { passthrough, .. } => pinned_inputs(
                input_link,
                output_pin,
                passthrough,
            ),
        }
    }
}

fn first_pin(input: &CapsPattern, pins: &CapsSet, mask: FieldMask) -> (r: Option<CapsPattern>)
    ensures
        r is Some == first_pinned(input@, pins@, mask) is Some,
        r matches Some(p) ==> p@ == first_pinned(input@, pins@, mask)->0,
{
    assert(pins@.skip(0) =~= pins@);
    for j in 0..pins.alternatives.len()
        invariant
            first_pinned(input@, pins@, mask) == first_pinned(input@, pins@.skip(j as int), mask),
    {
        let candidate = mask_project(&pins.alternatives[j], input, mask);
        assert(pins@.skip(j as int).drop_first() =~= pins@.skip(j as int + 1));
        assert(pins@.skip(j as int)[0] == pins@[j as int]);
        if !candidate.is_empty() {
            return Some(candidate);
        }
    }
    None
}

impl Constraint {
    /// The set this constraint accepts on its input link.
    pub fn input_set(&self) -> (r: CapsSet)
        ensures
            r@ == self@.accepts(),
    {
        match self {
            Constraint::Produces(_) => CapsSet::any(),
            Constraint::Identity(set) => set.copied(),
            Constraint::Derived { input, passthrough: _, output: _ } => input.copied(),
        }
    }

    /// The set this constraint can put on its output link given the input
    /// link.
    pub fn output_set(&self, input_link: &CapsSet) -> (r: CapsSet)
        ensures
            r@ == self@.outputs(input_link@),
    {
        match self {
            Constraint::Produces(set) => set.copied(),
            Constraint::Identity(set) => input_link.intersect(set),
            Constraint::Derived { input, passthrough, output } => {
                let narrowed = input_link.intersect(input);
                let mut alternatives: Vec<CapsPattern> = Vec::new();
                for i in 0..narrowed.alternatives.len()
                    invariant
                        alternatives@.len() == i,
                        forall|k: int|
                            0 <= k < i ==> (#[trigger] alternatives@[k])@ == projected(
                                narrowed@[k],
                                output@,
                                *passthrough,
                            ),
                {
                    alternatives.push(
                        mask_project(&narrowed.alternatives[i], output, *passthrough),
                    );
                }
                let r = CapsSet { alternatives };
                assert(r@ =~= derived_outputs(narrowed@, output@, *passthrough));
                r
            },
        }
    }

    /// Narrow the input link by a pin on the output link.
    pub fn narrow_input(&self, input_link: &CapsSet, output_pin: &CapsSet) -> (r: CapsSet)
        ensures
            r@ == self@.narrowed(input_link@, output_pin@),
    {
        match self {
            Constraint::Produces(_) => input_link.copied(),
            Constraint::Identity(_) => input_link.intersect(output_pin),
            Constraint::Derived { input: _, passthrough, output: _ } => {
                let mut r = CapsSet { alternatives: Vec::new() };
                assert(r@ =~= pinned_inputs(input_link@.take(0), output_pin@, *passthrough));
                for i in 0..input_link.alternatives.len()
                    invariant
                        r@ == pinned_inputs(input_link@.take(i as int), output_pin@, *passthrough),
                {
                    let ghost before = r@;
                    assert(input_link@.take(i as int + 1).drop_last() =~= input_link@.take(
                        i as int,
                    ));
                    if let Some(p) = first_pin(
                        &input_link.alternatives[i],
                        output_pin,
                        *passthrough,
                    ) {
                        r.alternatives.push(p);
                        assert(r@ =~= before.push(p@));
                    }
                }
                assert(input_link@.take(input_link@.len() as int) =~= input_link@);
                r
            },
        }
    }
}

} // verus!
