//! Features kept by a property, properties rewritten, and what a feature
//! is burned into a raster with. Each works feature by feature.

use vstd::prelude::*;

use crate::chunk;
use crate::chunk::{FeatureGeometry, FeatureModel, GeometryModel, Polygon, VectorFeature};
use crate::dissolve;
use crate::json;
use crate::json::{Json, JsonModel, JsonNumber};
use crate::number::Real;
use crate::text;
use crate::vector;

verus! {

// Keeping features.

/// Keeps the features whose property equals a value. Texts, integers and
/// truth values compare exactly, other numbers by nearness.
#[derive(Debug)]
pub struct VecFilter {
    pub field: String,
    pub equals: Json,
}

/// What the nearness that is handed in says.
pub open spec fn nearby<F: Fn(Real, Real) -> bool>(near: F, a: Real, b: Real) -> bool {
    near.ensures((a, b), true)
}

/// The nearness can be asked of any two numbers and always gives one
/// answer.
pub open spec fn is_nearness<F: Fn(Real, Real) -> bool>(near: F) -> bool {
    &&& forall|a: Real, b: Real| #[trigger] near.requires((a, b))
    &&& forall|a: Real, b: Real| !(#[trigger] near.ensures((a, b), true) && near.ensures((a, b), false))
}

/// Two numbers count as equal.
pub open spec fn numbers_match<F: Fn(Real, Real) -> bool>(near: F, a: JsonNumber, b: JsonNumber) -> bool {
    match (a.int, b.int) {
        (Some(x), Some(y)) => x == y,
        (None, None) => nearby(near, a.real, b.real),
        _ => false,
    }
}

/// A property equals the value asked for. One that is missing, or of
/// another type, does not.
pub open spec fn property_matches<F: Fn(Real, Real) -> bool>(
    near: F,
    property: Option<JsonModel>,
    equals: JsonModel,
) -> bool {
    match (property, equals) {
        (Some(JsonModel::Text(a)), JsonModel::Text(b)) => a == b,
        (Some(JsonModel::Bool(a)), JsonModel::Bool(b)) => a == b,
        (Some(JsonModel::Number(a)), JsonModel::Number(b)) => numbers_match(near, a, b),
        _ => false,
    }
}

/// A feature stays: the property asked for matches.
pub open spec fn stays<F: Fn(Real, Real) -> bool>(
    near: F,
    field: Seq<char>,
    equals: JsonModel,
    f: FeatureModel,
) -> bool {
    property_matches(near, json::member_from(f.properties, field, 0), equals)
}

impl VecFilter {
    pub fn new(field: String, equals: Json) -> (r: VecFilter)
        ensures
            r.field == field,
            r.equals == equals,
    {
        VecFilter { field, equals }
    }

    /// Whether properties hold the value asked for.
    pub fn keeps<F: Fn(Real, Real) -> bool>(
        &self,
        properties: &Vec<(String, Json)>,
        near: &F,
    ) -> (r: bool)
        requires
            is_nearness(*near),
        ensures
            r == property_matches(
                *near,
                json::member_from(json::members_model(properties@), self.field@, 0),
                self.equals@,
            ),
    {
        match (json::find(properties, self.field.as_str()), &self.equals) {
            (Some(Json::Text(a)), Json::Text(b)) => text::same_text(a.as_str(), b.as_str()),
            (Some(Json::Bool(a)), Json::Bool(b)) => *a == *b,
            (Some(Json::Number(a)), Json::Number(b)) => match (a.int, b.int) {
                (Some(x), Some(y)) => x == y,
                (None, None) => {
                    let r: bool = near(a.real, b.real);
                    assert(near.ensures((a.real, b.real), r));
                    r
                },
                _ => false,
            },
            _ => false,
        }
    }

    /// The features that stay, in order.
    pub fn compute<F: Fn(Real, Real) -> bool>(
        &self,
        features: Vec<VectorFeature>,
        near: &F,
    ) -> (r: Vec<VectorFeature>)
        requires
            is_nearness(*near),
        ensures
            chunk::features_model(r@) == chunk::features_model(features@).filter(
                |f: FeatureModel| stays(*near, self.field@, self.equals@, f),
            ),
    {
        let ghost model = chunk::features_model(features@);
        let ghost pred = |f: FeatureModel| stays(*near, self.field@, self.equals@, f);
        let mut rest = features;
        let mut out: Vec<VectorFeature> = Vec::new();
        let ghost mut done: int = 0;
        proof {
            reveal(Seq::filter);
            assert(model.take(0) =~= Seq::empty());
            assert(chunk::features_model(out@) =~= Seq::empty());
            assert(model.skip(0) =~= model);
        }
        while rest.len() > 0
            invariant
                is_nearness(*near),
                pred == |f: FeatureModel| stays(*near, self.field@, self.equals@, f),
                0 <= done <= model.len(),
                chunk::features_model(rest@) == model.skip(done),
                rest@.len() == model.len() - done,
                chunk::features_model(out@) == model.take(done).filter(pred),
            decreases rest@.len(),
        {
            let ghost listed = chunk::features_model(rest@);
            let ghost head = listed[0];
            let f = rest.remove(0);
            proof {
                assert forall|i: int| 0 <= i < rest@.len() implies chunk::features_model(rest@)[i]
                    == #[trigger] listed[i + 1] by {}
                assert forall|i: int| 0 <= i < rest@.len() implies #[trigger] listed[i + 1]
                    == model.skip(done + 1)[i] by {}
                assert forall|i: int| 0 <= i < rest@.len() implies #[trigger] chunk::features_model(
                    rest@,
                )[i] == model.skip(done + 1)[i] by {
                    assert(listed[i + 1] == model.skip(done + 1)[i]);
                }
                assert(f@ == head);
                assert(head == model[done]);
                assert(chunk::features_model(rest@) =~= model.skip(done + 1));
                assert(model.take(done + 1).drop_last() =~= model.take(done));
                reveal(Seq::filter);
            }
            let keep: bool = self.keeps(&f.properties, near);
            let ghost before = chunk::features_model(out@);
            if keep {
                out.push(f);
                assert(chunk::features_model(out@) =~= before.push(head));
            }
            proof {
                done = done + 1;
            }
        }
        assert(model.take(done) =~= model);
        out
    }
}

// Rewriting properties.

/// Drops properties, renames those that are left, then adds defaults that a
/// feature does not carry.
#[derive(Debug)]
pub struct VecSchema {
    pub rename: Vec<(String, String)>,
    pub drop: Vec<String>,
    pub add: Vec<(String, Json)>,
}

/// A list of texts holds one.
pub open spec fn lists(v: Seq<String>, name: Seq<char>) -> bool {
    exists|i: int| 0 <= i < v.len() && (#[trigger] v[i])@ == name
}

/// The new name of a property: the first that the renames give, else its
/// own.
pub open spec fn renamed(v: Seq<(String, String)>, name: Seq<char>, from: int) -> Seq<char>
    decreases v.len() - from,
{
    if from >= v.len() {
        name
    } else if v[from].0@ == name {
        v[from].1@
    } else {
        renamed(v, name, from + 1)
    }
}

/// Where a name stands among members, past the end where it does not.
pub open spec fn place_of_name(ms: Seq<(Seq<char>, JsonModel)>, name: Seq<char>, from: int) -> int
    decreases ms.len() - from,
{
    if from >= ms.len() || ms[from].0 == name {
        from
    } else {
        place_of_name(ms, name, from + 1)
    }
}

/// Members with one put in: over the one of its name, else at the end.
pub open spec fn put(
    ms: Seq<(Seq<char>, JsonModel)>,
    name: Seq<char>,
    v: JsonModel,
) -> Seq<(Seq<char>, JsonModel)> {
    let p = place_of_name(ms, name, 0);
    if p < ms.len() {
        ms.update(p, (name, v))
    } else {
        ms.push((name, v))
    }
}

/// The properties that are left of the first `n`, under their new names. Of
/// two that come to share a name the later stays.
pub open spec fn kept_members(
    schema: VecSchema,
    ms: Seq<(Seq<char>, JsonModel)>,
    n: int,
) -> Seq<(Seq<char>, JsonModel)>
    decreases n,
{
    if n <= 0 {
        Seq::empty()
    } else {
        let before = kept_members(schema, ms, n - 1);
        let (name, v) = ms[n - 1];
        if lists(schema.drop@, name) {
            before
        } else {
            put(before, renamed(schema.rename@, name, 0), v)
        }
    }
}

/// Members with the first `n` defaults that they lack.
pub open spec fn with_defaults(
    ms: Seq<(Seq<char>, JsonModel)>,
    add: Seq<(Seq<char>, JsonModel)>,
    n: int,
) -> Seq<(Seq<char>, JsonModel)>
    decreases n,
{
    if n <= 0 {
        ms
    } else {
        let before = with_defaults(ms, add, n - 1);
        if place_of_name(before, add[n - 1].0, 0) < before.len() {
            before
        } else {
            before.push(add[n - 1])
        }
    }
}

/// Properties rewritten.
pub open spec fn mapped(schema: VecSchema, ms: Seq<(Seq<char>, JsonModel)>) -> Seq<
    (Seq<char>, JsonModel),
> {
    with_defaults(
        kept_members(schema, ms, ms.len() as int),
        json::members_model(schema.add@),
        schema.add@.len() as int,
    )
}

fn find_name(v: &Vec<(String, Json)>, name: &str) -> (p: usize)
    ensures
        p <= v@.len(),
        p == place_of_name(json::members_model(v@), name@, 0),
{
    let ghost ms = json::members_model(v@);
    let mut p: usize = 0;
    while p < v.len()
        invariant
            ms == json::members_model(v@),
            p <= v@.len(),
            place_of_name(ms, name@, 0) == place_of_name(ms, name@, p as int),
        decreases v@.len() - p,
    {
        if text::same_text(v[p].0.as_str(), name) {
            return p;
        }
        p = p + 1;
    }
    p
}

/// A feature with its properties rewritten.
pub open spec fn rewritten(schema: VecSchema, f: FeatureModel) -> FeatureModel {
    FeatureModel { id: f.id, geometry: f.geometry, properties: mapped(schema, f.properties) }
}

/// Features with their properties rewritten.
pub open spec fn all_rewritten(schema: VecSchema, fs: Seq<FeatureModel>) -> Seq<FeatureModel> {
    Seq::new(fs.len(), |i: int| rewritten(schema, fs[i]))
}

impl VecSchema {
    fn drops(&self, name: &str) -> (r: bool)
        ensures
            r == lists(self.drop@, name@),
    {
        for i in 0..self.drop.len()
            invariant
                forall|k: int| 0 <= k < i ==> (#[trigger] self.drop@[k])@ != name@,
        {
            if text::same_text(self.drop[i].as_str(), name) {
                return true;
            }
        }
        false
    }

    fn new_name(&self, name: &str) -> (r: String)
        ensures
            r@ == renamed(self.rename@, name@, 0),
    {
        for i in 0..self.rename.len()
            invariant
                renamed(self.rename@, name@, 0) == renamed(self.rename@, name@, i as int),
        {
            if text::same_text(self.rename[i].0.as_str(), name) {
                return String::from_str(self.rename[i].1.as_str());
            }
        }
        String::from_str(name)
    }

    /// Rewrite the properties of features. Features keep their order, their
    /// ids and geometries.
    pub fn compute(&self, features: &Vec<VectorFeature>) -> (r: Vec<VectorFeature>)
        ensures
            chunk::features_model(r@) == all_rewritten(*self, chunk::features_model(features@)),
    {
        let ghost fs = chunk::features_model(features@);
        let mut out: Vec<VectorFeature> = Vec::new();
        for i in 0..features.len()
            invariant
                fs == chunk::features_model(features@),
                out@.len() == i,
                forall|k: int| 0 <= k < i ==> (#[trigger] out@[k])@ == rewritten(*self, fs[k]),
        {
            let f = &features[i];
            assert(fs[i as int] == f@);
            out.push(
                VectorFeature {
                    id: f.id,
                    geometry: vector::copy_geometry(&f.geometry),
                    properties: self.map(&f.properties),
                },
            );
        }
        assert(chunk::features_model(out@) =~= all_rewritten(*self, fs));
        out
    }

    /// Rewrite properties.
    pub fn map(&self, properties: &Vec<(String, Json)>) -> (r: Vec<(String, Json)>)
        ensures
            json::members_model(r@) == mapped(*self, json::members_model(properties@)),
    {
        let ghost ms = json::members_model(properties@);
        let mut out: Vec<(String, Json)> = Vec::new();
        assert(json::members_model(out@) =~= Seq::empty());
        for i in 0..properties.len()
            invariant
                ms == json::members_model(properties@),
                json::members_model(out@) == kept_members(*self, ms, i as int),
        {
            let name = properties[i].0.as_str();
            assert(ms[i as int] == (properties@[i as int].0@, properties@[i as int].1@));
            if !self.drops(name) {
                let key = self.new_name(name);
                let value = json::copy_json(&properties[i].1);
                let ghost before = json::members_model(out@);
                let ghost entry = (key@, value@);
                let p: usize = find_name(&out, key.as_str());
                if p < out.len() {
                    out.set(p, (key, value));
                    assert(json::members_model(out@) =~= before.update(p as int, entry));
                } else {
                    out.push((key, value));
                    assert(json::members_model(out@) =~= before.push(entry));
                }
            }
        }
        let ghost kept = json::members_model(out@);
        let ghost add = json::members_model(self.add@);
        for i in 0..self.add.len()
            invariant
                add == json::members_model(self.add@),
                json::members_model(out@) == with_defaults(kept, add, i as int),
        {
            assert(add[i as int] == (self.add@[i as int].0@, self.add@[i as int].1@));
            let name = self.add[i].0.as_str();
            let p: usize = find_name(&out, name);
            if p >= out.len() {
                let ghost before = json::members_model(out@);
                out.push((String::from_str(name), json::copy_json(&self.add[i].1)));
                assert(json::members_model(out@) =~= before.push(add[i as int]));
            }
        }
        out
    }
}

proof fn place_is_name(ms: Seq<(Seq<char>, JsonModel)>, name: Seq<char>, from: int)
    requires
        0 <= from <= ms.len(),
    ensures
        from <= place_of_name(ms, name, from) <= ms.len(),
        place_of_name(ms, name, from) < ms.len() ==> ms[place_of_name(ms, name, from)].0 == name,
        forall|k: int| from <= k < place_of_name(ms, name, from) ==> (#[trigger] ms[k]).0 != name,
    decreases ms.len() - from,
{
    if from < ms.len() && ms[from].0 != name {
        place_is_name(ms, name, from + 1);
    }
}

/// Members hold a name.
pub open spec fn has_name(ms: Seq<(Seq<char>, JsonModel)>, name: Seq<char>) -> bool {
    exists|i: int| 0 <= i < ms.len() && (#[trigger] ms[i]).0 == name
}

/// Defaults leave what is there as it is, and each default's name is there
/// in the end.
pub proof fn defaults_only_fill(
    ms: Seq<(Seq<char>, JsonModel)>,
    add: Seq<(Seq<char>, JsonModel)>,
    n: int,
)
    requires
        0 <= n <= add.len(),
    ensures
        with_defaults(ms, add, n).len() >= ms.len(),
        with_defaults(ms, add, n).take(ms.len() as int) == ms,
        forall|k: int| 0 <= k < n ==> has_name(with_defaults(ms, add, n), (#[trigger] add[k]).0),
    decreases n,
{
    if n > 0 {
        defaults_only_fill(ms, add, n - 1);
        let before = with_defaults(ms, add, n - 1);
        let after = with_defaults(ms, add, n);
        let name = add[n - 1].0;
        place_is_name(before, name, 0);
        assert(after.take(ms.len() as int) =~= before.take(ms.len() as int));
        assert forall|k: int| 0 <= k < n implies has_name(after, (#[trigger] add[k]).0) by {
            if k < n - 1 {
                assert(has_name(before, add[k].0));
                let i = choose|i: int| 0 <= i < before.len() && (#[trigger] before[i]).0 == add[k].0;
                assert(after[i].0 == add[k].0);
            } else {
                let p = place_of_name(before, name, 0);
                assert(after[p].0 == name);
            }
        }
    } else {
        assert(ms.take(ms.len() as int) =~= ms);
    }
}

/// No two properties share a name after a rewrite.
pub proof fn names_stay_apart(schema: VecSchema, ms: Seq<(Seq<char>, JsonModel)>, n: int)
    requires
        0 <= n <= ms.len(),
    ensures
        ({
            let r = kept_members(schema, ms, n);
            forall|i: int, j: int| 0 <= i < j < r.len() ==> (#[trigger] r[i]).0 != (#[trigger] r[j]).0
        }),
    decreases n,
{
    if n > 0 {
        names_stay_apart(schema, ms, n - 1);
        let before = kept_members(schema, ms, n - 1);
        let name = renamed(schema.rename@, ms[n - 1].0, 0);
        place_is_name(before, name, 0);
        let r = kept_members(schema, ms, n);
        assert forall|i: int, j: int| 0 <= i < j < r.len() implies (#[trigger] r[i]).0 != (
        #[trigger] r[j]).0 by {
            if i < before.len() {
                assert(r[i].0 == before[i].0);
            }
            if j < before.len() {
                assert(r[j].0 == before[j].0);
            }
        }
    }
}

proof fn member_is_first(ms: Seq<(Seq<char>, JsonModel)>, name: Seq<char>, from: int)
    requires
        0 <= from <= ms.len(),
    ensures
        json::member_from(ms, name, from) == (if place_of_name(ms, name, from) < ms.len() {
            Some(ms[place_of_name(ms, name, from)].1)
        } else {
            None
        }),
    decreases ms.len() - from,
{
    if from < ms.len() && ms[from].0 != name {
        member_is_first(ms, name, from + 1);
    }
}

proof fn place_is_found(ms: Seq<(Seq<char>, JsonModel)>, name: Seq<char>, from: int, at: int)
    requires
        0 <= from <= at <= ms.len(),
        at < ms.len() ==> ms[at].0 == name,
        forall|k: int| from <= k < at ==> (#[trigger] ms[k]).0 != name,
    ensures
        place_of_name(ms, name, from) == at,
    decreases at - from,
{
    if from < at {
        place_is_found(ms, name, from + 1, at);
    }
}

/// A member put in is found under its name, and the others as before.
pub proof fn what_is_put_is_found(
    ms: Seq<(Seq<char>, JsonModel)>,
    name: Seq<char>,
    v: JsonModel,
    other: Seq<char>,
)
    ensures
        json::member_from(put(ms, name, v), other, 0) == (if other == name {
            Some(v)
        } else {
            json::member_from(ms, other, 0)
        }),
{
    let r = put(ms, name, v);
    let p = place_of_name(ms, name, 0);
    place_is_name(ms, name, 0);
    place_is_name(ms, other, 0);
    let q = if other == name {
        p
    } else if place_of_name(ms, other, 0) < ms.len() {
        place_of_name(ms, other, 0)
    } else {
        r.len() as int
    };
    assert forall|k: int| 0 <= k < q implies (#[trigger] r[k]).0 != other by {
        if k < ms.len() && k != p {
            assert(r[k] == ms[k]);
            assert(ms[k].0 != other);
        }
    }
    place_is_found(r, other, 0, q);
    member_is_first(r, other, 0);
    member_is_first(ms, other, 0);
}

proof fn members_of_a_longer_list(
    ms: Seq<(Seq<char>, JsonModel)>,
    e: (Seq<char>, JsonModel),
    name: Seq<char>,
    from: int,
)
    requires
        0 <= from <= ms.len(),
    ensures
        json::member_from(ms.push(e), name, from) == (match json::member_from(ms, name, from) {
            Some(v) => Some(v),
            None => if e.0 == name {
                Some(e.1)
            } else {
                None
            },
        }),
    decreases ms.len() - from,
{
    let longer = ms.push(e);
    if from < ms.len() {
        assert(longer[from] == ms[from]);
        members_of_a_longer_list(ms, e, name, from + 1);
    } else {
        assert(longer[from] == e);
        assert(json::member_from(longer, name, from + 1) is None);
    }
}

/// The value that comes to stand under a name: that of the last property
/// among the first `n` that is not dropped and gets this name.
pub open spec fn last_renamed(
    schema: VecSchema,
    ms: Seq<(Seq<char>, JsonModel)>,
    name: Seq<char>,
    n: int,
) -> Option<JsonModel>
    decreases n,
{
    if n <= 0 {
        None
    } else if !lists(schema.drop@, ms[n - 1].0) && renamed(schema.rename@, ms[n - 1].0, 0) == name {
        Some(ms[n - 1].1)
    } else {
        last_renamed(schema, ms, name, n - 1)
    }
}

proof fn kept_member(schema: VecSchema, ms: Seq<(Seq<char>, JsonModel)>, name: Seq<char>, n: int)
    requires
        0 <= n <= ms.len(),
    ensures
        json::member_from(kept_members(schema, ms, n), name, 0) == last_renamed(schema, ms, name, n),
    decreases n,
{
    if n > 0 {
        kept_member(schema, ms, name, n - 1);
        if !lists(schema.drop@, ms[n - 1].0) {
            what_is_put_is_found(
                kept_members(schema, ms, n - 1),
                renamed(schema.rename@, ms[n - 1].0, 0),
                ms[n - 1].1,
                name,
            );
        }
    }
}

proof fn default_member(
    ms: Seq<(Seq<char>, JsonModel)>,
    add: Seq<(Seq<char>, JsonModel)>,
    name: Seq<char>,
    n: int,
)
    requires
        0 <= n <= add.len(),
    ensures
        json::member_from(with_defaults(ms, add, n), name, 0) == (match json::member_from(
            ms,
            name,
            0,
        ) {
            Some(v) => Some(v),
            None => json::member_from(add.take(n), name, 0),
        }),
    decreases n,
{
    if n > 0 {
        default_member(ms, add, name, n - 1);
        let before = with_defaults(ms, add, n - 1);
        assert(add.take(n) =~= add.take(n - 1).push(add[n - 1]));
        members_of_a_longer_list(add.take(n - 1), add[n - 1], name, 0);
        members_of_a_longer_list(before, add[n - 1], name, 0);
        place_is_name(before, add[n - 1].0, 0);
        member_is_first(before, name, 0);
    }
}

/// What is found under a name after a rewrite: the last property that gets
/// the name, and where none does the first default of that name.
pub proof fn a_rewrite_is_seen_by_name(
    schema: VecSchema,
    ms: Seq<(Seq<char>, JsonModel)>,
    name: Seq<char>,
)
    ensures
        json::member_from(mapped(schema, ms), name, 0) == (match last_renamed(
            schema,
            ms,
            name,
            ms.len() as int,
        ) {
            Some(v) => Some(v),
            None => json::member_from(json::members_model(schema.add@), name, 0),
        }),
{
    let add = json::members_model(schema.add@);
    kept_member(schema, ms, name, ms.len() as int);
    default_member(kept_members(schema, ms, ms.len() as int), add, name, add.len() as int);
    assert(add.take(add.len() as int) =~= add);
}

// Burning.

/// What a feature is burned with: one value for all, or a property.
#[derive(Debug)]
pub enum Burn {
    Constant(Real),
    Property(String),
}

#[derive(Debug)]
pub struct Rasterize {
    pub burn: Burn,
}

impl Rasterize {
    /// What a feature with these properties is burned with; without the
    /// property it is left out.
    pub fn value(&self, properties: &Vec<(String, Json)>) -> (r: Option<Real>)
        ensures
            r == (match self.burn {
                Burn::Constant(v) => Some(v),
                Burn::Property(name) => json::real_of(
                    json::member_from(json::members_model(properties@), name@, 0),
                ),
            }),
    {
        match &self.burn {
            Burn::Constant(v) => Some(*v),
            Burn::Property(name) => json::as_real(json::find(properties, name.as_str())),
        }
    }
}

/// What a feature is burned with.
pub open spec fn burned_with(burn: Burn, f: FeatureModel) -> Option<Real> {
    match burn {
        Burn::Constant(v) => Some(v),
        Burn::Property(name) => json::real_of(json::member_from(f.properties, name@, 0)),
    }
}

/// The geometries of the first `n` features that are burned, each with its
/// value.
pub open spec fn burned(burn: Burn, fs: Seq<FeatureModel>, n: int) -> Seq<(GeometryModel, Real)>
    decreases n,
{
    if n <= 0 {
        Seq::empty()
    } else {
        let before = burned(burn, fs, n - 1);
        match burned_with(burn, fs[n - 1]) {
            Some(v) => before.push((fs[n - 1].geometry, v)),
            None => before,
        }
    }
}

/// Geometries with their values, as they are.
pub open spec fn shapes_model(shapes: Seq<(FeatureGeometry, Real)>) -> Seq<(GeometryModel, Real)> {
    Seq::new(shapes.len(), |i: int| (shapes[i].0@, shapes[i].1))
}

impl Rasterize {
    /// The geometries to burn and their values, in order.
    pub fn shapes(&self, features: &Vec<VectorFeature>) -> (r: Vec<(FeatureGeometry, Real)>)
        ensures
            shapes_model(r@) == burned(
                self.burn,
                chunk::features_model(features@),
                features@.len() as int,
            ),
    {
        let ghost fs = chunk::features_model(features@);
        let mut r: Vec<(FeatureGeometry, Real)> = Vec::new();
        assert(shapes_model(r@) =~= Seq::empty());
        for i in 0..features.len()
            invariant
                fs == chunk::features_model(features@),
                shapes_model(r@) == burned(self.burn, fs, i as int),
        {
            let f = &features[i];
            assert(fs[i as int] == f@);
            let ghost before = shapes_model(r@);
            if let Some(v) = self.value(&f.properties) {
                let g = vector::copy_geometry(&f.geometry);
                let ghost shape = g@;
                r.push((g, v));
                assert(shapes_model(r@) =~= before.push((shape, v)));
            }
        }
        r
    }
}

/// A filter and a burn behind a rewrite go by the rewritten properties.
pub proof fn what_follows_a_rewrite_sees_it<F: Fn(Real, Real) -> bool>(
    near: F,
    schema: VecSchema,
    field: Seq<char>,
    equals: JsonModel,
    burn: Burn,
    fs: Seq<FeatureModel>,
    i: int,
)
    requires
        0 <= i < fs.len(),
    ensures
        ({
            let f = all_rewritten(schema, fs)[i];
            let found = |name: Seq<char>| match last_renamed(
                schema,
                fs[i].properties,
                name,
                fs[i].properties.len() as int,
            ) {
                Some(v) => Some(v),
                None => json::member_from(json::members_model(schema.add@), name, 0),
            };
            &&& f.id == fs[i].id
            &&& f.geometry == fs[i].geometry
            &&& stays(near, field, equals, f) == property_matches(near, found(field), equals)
            &&& burn matches Burn::Property(name) ==> burned_with(burn, f) == json::real_of(
                found(name@),
            )
        }),
{
    a_rewrite_is_seen_by_name(schema, fs[i].properties, field);
    if let Burn::Property(name) = burn {
        a_rewrite_is_seen_by_name(schema, fs[i].properties, name@);
    }
}

// Cutting.

/// The cut that is handed in leaves this of a geometry.
pub open spec fn leaves<C: Fn(FeatureGeometry) -> Option<FeatureGeometry>>(
    c: C,
    g: FeatureGeometry,
    r: Option<FeatureGeometry>,
) -> bool {
    c.ensures((g,), r)
}

/// The cut makes this of a geometry, or nothing.
pub open spec fn cuts_to<C: Fn(FeatureGeometry) -> Option<FeatureGeometry>>(
    c: C,
    from: GeometryModel,
    to: Option<GeometryModel>,
) -> bool {
    exists|g: FeatureGeometry, r: Option<FeatureGeometry>| #[trigger]
        leaves(c, g, r) && g@ == from && dissolve::shape_of(r) == to
}

/// Features are what a cut leaves of the first `n`: each with its id and
/// properties, none where nothing is left of it.
pub open spec fn cut<C: Fn(FeatureGeometry) -> Option<FeatureGeometry>>(
    c: C,
    fs: Seq<FeatureModel>,
    out: Seq<FeatureModel>,
    n: int,
) -> bool
    decreases n,
{
    if n <= 0 {
        out.len() == 0
    } else {
        let f = fs[n - 1];
        ||| cuts_to(c, f.geometry, None) && cut(c, fs, out, n - 1)
        ||| {
            &&& out.len() > 0
            &&& out.last().id == f.id
            &&& out.last().properties == f.properties
            &&& cuts_to(c, f.geometry, Some(out.last().geometry))
            &&& cut(c, fs, out.drop_last(), n - 1)
        }
    }
}

/// Features cut to a fixed boundary.
#[derive(Debug)]
pub struct VecClip {
    pub boundary: Vec<Polygon>,
}

impl VecClip {
    /// What the cut to the boundary, which is handed in, leaves of features.
    pub fn compute<C: Fn(FeatureGeometry) -> Option<FeatureGeometry>>(
        &self,
        c: &C,
        features: &Vec<VectorFeature>,
    ) -> (r: Vec<VectorFeature>)
        requires
            forall|g: FeatureGeometry| #[trigger] c.requires((g,)),
        ensures
            cut(
                *c,
                chunk::features_model(features@),
                chunk::features_model(r@),
                features@.len() as int,
            ),
    {
        let ghost fs = chunk::features_model(features@);
        let mut out: Vec<VectorFeature> = Vec::new();
        for i in 0..features.len()
            invariant
                fs == chunk::features_model(features@),
                forall|g: FeatureGeometry| #[trigger] c.requires((g,)),
                cut(*c, fs, chunk::features_model(out@), i as int),
        {
            let f = &features[i];
            assert(fs[i as int] == f@);
            let g = vector::copy_geometry(&f.geometry);
            let ghost given = g;
            let left = c(g);
            assert(leaves(*c, given, left));
            assert(cuts_to(*c, fs[i as int].geometry, dissolve::shape_of(left)));
            let ghost before = chunk::features_model(out@);
            if let Some(geometry) = left {
                let kept = VectorFeature {
                    id: f.id,
                    geometry,
                    properties: json::copy_members(&f.properties),
                };
                let ghost added = kept@;
                out.push(kept);
                proof {
                    let after = chunk::features_model(out@);
                    assert(after =~= before.push(added));
                    assert(after.drop_last() =~= before);
                }
            }
        }
        out
    }
}

// Gridded planes.

/// A plane with its rows the other way up.
pub open spec fn upside_down(data: Seq<Real>, cols: int, rows: int) -> Seq<Real> {
    Seq::new(data.len(), |p: int| data[(rows - 1 - p / cols) * cols + p % cols])
}

/// Turn the rows of a plane the other way up.
pub fn flip_rows(data: &Vec<Real>, cols: usize, rows: usize) -> (r: Vec<Real>)
    requires
        data@.len() == cols * rows,
    ensures
        r@ == upside_down(data@, cols as int, rows as int),
{
    let n: usize = data.len();
    let mut out: Vec<Real> = Vec::new();
    for p in 0..n
        invariant
            n == data@.len(),
            n == cols * rows,
            out@ == upside_down(data@, cols as int, rows as int).take(p as int),
    {
        proof {
            assert(cols > 0) by (nonlinear_arith)
                requires
                    cols * rows > p,
                    p >= 0,
                    cols >= 0,
            ;
        }
        let row: usize = p / cols;
        let col: usize = p % cols;
        proof {
            vstd::arithmetic::div_mod::lemma_fundamental_div_mod(p as int, cols as int);
            assert(row < rows) by (nonlinear_arith)
                requires
                    p == cols * row + col,
                    p < cols * rows,
                    0 <= col,
                    cols > 0,
            ;
            let up = rows - 1 - row;
            assert(0 <= up * cols && up * cols + col < n) by (nonlinear_arith)
                requires
                    0 <= up < rows,
                    0 <= col < cols,
                    n == cols * rows,
            ;
        }
        out.push(data[(rows - 1 - row) * cols + col]);
        assert(out@ =~= upside_down(data@, cols as int, rows as int).take(p + 1));
    }
    assert(out@ =~= upside_down(data@, cols as int, rows as int));
    out
}

proof fn flipped_cell(cols: int, rows: int, p: int)
    requires
        0 <= p < cols * rows,
        cols >= 0,
    ensures
        ({
            let q = (rows - 1 - p / cols) * cols + p % cols;
            0 <= q < cols * rows && (rows - 1 - q / cols) * cols + q % cols == p
        }),
{
    assert(cols > 0) by (nonlinear_arith)
        requires
            cols * rows > p,
            p >= 0,
            cols >= 0,
    ;
    vstd::arithmetic::div_mod::lemma_fundamental_div_mod(p, cols);
    vstd::arithmetic::div_mod::lemma_mod_bound(p, cols);
    let r = p / cols;
    let c = p % cols;
    assert(0 <= r < rows) by (nonlinear_arith)
        requires
            p == cols * r + c,
            0 <= p < cols * rows,
            0 <= c < cols,
    ;
    let up = rows - 1 - r;
    let q = up * cols + c;
    vstd::arithmetic::div_mod::lemma_fundamental_div_mod_converse(q, cols, up, c);
    assert(r * cols == cols * r) by (nonlinear_arith);
    assert(0 <= q < cols * rows) by (nonlinear_arith)
        requires
            q == up * cols + c,
            0 <= up < rows,
            0 <= c < cols,
    ;
}

/// Turning rows over twice gives the plane back.
pub proof fn flipping_twice_is_nothing(data: Seq<Real>, cols: int, rows: int)
    requires
        0 <= cols,
        0 <= rows,
        data.len() == cols * rows,
    ensures
        upside_down(upside_down(data, cols, rows), cols, rows) == data,
{
    let once = upside_down(data, cols, rows);
    assert forall|p: int| 0 <= p < data.len() implies upside_down(once, cols, rows)[p] == data[p] by {
        flipped_cell(cols, rows, p);
    }
    assert(upside_down(once, cols, rows) =~= data);
}

} // verus!
