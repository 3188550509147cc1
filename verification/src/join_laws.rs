//! Sources that meet in everything but the reference system can be joined:
//! negotiation brings all of them onto one.

use vstd::prelude::*;

use crate::caps;
use crate::caps::{
    AreaModel, Caps, ConstraintModel, Crs, Dtype, FieldModel, FieldValue, PatternModel, RasterCaps,
    RasterModel, ResRange, VectorCaps,
};
use crate::elements;
use crate::elements::AdapterKind;
use crate::graph;
use crate::number;
use crate::number::Real;
use crate::plug;
use crate::plug::Shape;
use crate::solver;
use crate::solver::{Fault, Links, Problem};
use crate::solver_laws;

verus! {

// Patterns.

/// A source of a kind: what it offers, on a reference system.
pub open spec fn offer_at(kind: AdapterKind, base: RasterModel, crs: Crs) -> PatternModel {
    match kind {
        AdapterKind::Raster => PatternModel::Raster(
            RasterModel { crs: FieldModel::OneOf(seq![crs]), ..base },
        ),
        AdapterKind::Vector => PatternModel::Vector(
            AreaModel {
                crs: FieldModel::OneOf(seq![crs]),
                resolution: base.resolution,
                chunk_px: base.chunk_px,
            },
        ),
    }
}

/// What every demand of a kind allows.
pub open spec fn any_of(kind: AdapterKind) -> PatternModel {
    match kind {
        AdapterKind::Raster => PatternModel::Raster(RasterModel::unbounded()),
        AdapterKind::Vector => PatternModel::Vector(AreaModel::unbounded()),
    }
}

/// The resolutions of a range are numbers, none below zero.
pub open spec fn plain(r: ResRange) -> bool {
    &&& !r.min.nan()
    &&& !r.max.nan()
    &&& r.min.bits < number::SIGN_BIT
    &&& r.max.bits < number::SIGN_BIT
}

/// The offer names something in every field but its system and resolutions.
pub open spec fn names_something(base: RasterModel) -> bool {
    &&& !base.dtype.empty()
    &&& !base.bands.empty()
    &&& !base.chunk_px.empty()
}

/// The offer names something in every field but its system.
pub open spec fn offers_something(base: RasterModel) -> bool {
    &&& names_something(base)
    &&& plain(base.resolution)
    &&& !base.resolution.empty()
}

/// An offer with other resolutions.
pub open spec fn ranged(base: RasterModel, r: ResRange) -> RasterModel {
    RasterModel { resolution: r, ..base }
}

/// The offer once it went through a reprojection, which keeps no resolution.
spec fn moved(kind: AdapterKind, base: RasterModel, crs: Crs) -> PatternModel {
    offer_at(kind, ranged(base, ResRange::unbounded()), crs)
}

/// The caps that an offer is fixed to.
spec fn fixed_at(kind: AdapterKind, base: RasterModel, crs: Crs) -> Caps {
    match kind {
        AdapterKind::Raster => Caps::Raster(
            RasterCaps {
                dtype: base.dtype.preferred_or(Dtype::F64),
                bands: base.bands.preferred_or(1),
                crs,
                resolution: base.resolution,
                chunk_px: base.chunk_px.preferred_or(256),
            },
        ),
        AdapterKind::Vector => Caps::Vector(
            VectorCaps {
                crs,
                resolution: base.resolution,
                chunk_px: base.chunk_px.preferred_or(256),
            },
        ),
    }
}

proof fn all_are_listed<T>(x: Seq<T>, y: Seq<T>)
    requires
        forall|i: int| 0 <= i < x.len() ==> y.contains(#[trigger] x[i]),
    ensures
        caps::listed_in(x, y) == x,
    decreases x.len(),
{
    reveal(Seq::filter);
    if x.len() > 0 {
        assert forall|i: int| 0 <= i < x.drop_last().len() implies y.contains(
            #[trigger] x.drop_last()[i],
        ) by {
            assert(x.drop_last()[i] == x[i]);
        }
        all_are_listed(x.drop_last(), y);
        assert(y.contains(x[x.len() - 1]));
        assert(x.drop_last().push(x.last()) =~= x);
    }
}

proof fn one_is_listed<T>(v: T, w: T)
    ensures
        caps::listed_in(seq![v], seq![v]) == seq![v],
        v != w ==> caps::listed_in(seq![v], seq![w]).len() == 0,
{
    reveal(Seq::filter);
    assert(seq![v][0] == v && seq![w][0] == w);
    all_are_listed(seq![v], seq![v]);
    assert(seq![v].drop_last() =~= Seq::<T>::empty());
    if v != w {
        assert(!seq![w].contains(v));
        assert(seq![v].last() == v);
        assert(caps::listed_in(Seq::<T>::empty(), seq![w]).len() == 0);
        assert(caps::listed_in(seq![v], seq![w]) == caps::listed_in(
            seq![v].drop_last(),
            seq![w],
        ));
    }
}

proof fn field_facts<T: FieldValue>(f: FieldModel<T>, fallback: T)
    requires
        !f.empty(),
    ensures
        f.meet(f) == f,
        f.meet(FieldModel::Any) == f,
        FieldModel::Any.meet(f) == f,
        ({
            let one = FieldModel::OneOf(seq![f.preferred_or(fallback)]);
            &&& one.meet(f) == one
            &&& one.meet(one) == one
            &&& one.meet(FieldModel::Any) == one
            &&& FieldModel::Any.meet(one) == one
            &&& one.preferred_or(fallback) == f.preferred_or(fallback)
        }),
{
    let v = f.preferred_or(fallback);
    one_is_listed(v, v);
    match f {
        FieldModel::Any => {},
        FieldModel::OneOf(x) => {
            assert forall|i: int| 0 <= i < x.len() implies x.contains(#[trigger] x[i]) by {}
            all_are_listed(x, x);
            assert(x.contains(x[0]));
            all_are_listed(seq![v], x);
        },
        FieldModel::AtLeast(g) => {
            reveal(Seq::filter);
            let reached = caps::reaching(seq![v], g);
            assert(seq![v].drop_last() =~= Seq::<T>::empty());
            assert(seq![v].last() == v);
            assert(reached =~= seq![v]);
        },
    }
}

proof fn range_facts(r: ResRange)
    requires
        plain(r),
        !r.empty(),
    ensures
        r.meet(r) == r,
        r.meet(ResRange::unbounded()) == r,
        ResRange::unbounded().meet(r) == r,
        ResRange::unbounded().meet(ResRange::unbounded()) == ResRange::unbounded(),
        plain(ResRange::unbounded()),
        !ResRange::unbounded().empty(),
        r.equals(r),
{
    let top = Real { bits: number::INFINITY_BITS };
    assert(top.place() == number::INFINITY_BITS);
    if r.max.place() == top.place() {
        assert(r.max == top);
    }
}

/// One range lies inside another.
spec fn finer(a: ResRange, b: ResRange) -> bool {
    b.min.place() <= a.min.place() && a.max.place() <= b.max.place()
}

proof fn ranges_meet(a: ResRange, b: ResRange, shared: Real)
    requires
        plain(a),
        plain(b),
        a.holds(shared),
        b.holds(shared),
    ensures
        plain(a.meet(b)),
        a.meet(b).holds(shared),
        !a.meet(b).empty(),
        finer(a.meet(b), a),
        finer(a.meet(b), b),
        forall|c: ResRange| #[trigger] finer(c, a) && finer(c, b) ==> finer(c, a.meet(b)),
        finer(a, b) ==> a.meet(b) == a && b.meet(a) == a,
        ResRange::unbounded().holds(shared),
        plain(ResRange::unbounded()),
        finer(a, ResRange::unbounded()),
        !a.empty(),
{
    let top = Real { bits: number::INFINITY_BITS };
    assert(top.place() == number::INFINITY_BITS);
    if finer(a, b) {
        if a.min.place() == b.min.place() {
            assert(a.min == b.min);
        }
        if a.max.place() == b.max.place() {
            assert(a.max == b.max);
        }
    }
}

proof fn ranges_are_one(a: ResRange, b: ResRange)
    requires
        plain(a),
        plain(b),
        finer(a, b),
        finer(b, a),
    ensures
        a == b,
{
}

/// How offers meet that differ in their resolutions and systems.
proof fn ranged_meet(kind: AdapterKind, base: RasterModel, x: ResRange, y: ResRange, a: Crs, b: Crs)
    requires
        names_something(base),
        !x.meet(y).empty(),
    ensures
        ({
            let p = offer_at(kind, ranged(base, x), a);
            let q = offer_at(kind, ranged(base, y), b);
            &&& a == b ==> p.meet(q) == Some(offer_at(kind, ranged(base, x.meet(y)), a))
            &&& a != b ==> p.meet(q) is None
        }),
{
    field_facts(base.dtype, Dtype::F64);
    field_facts(base.bands, 1);
    field_facts(base.chunk_px, 256);
    one_is_listed(a, b);
}

/// How an offer meets itself and what every demand allows.
proof fn offers_meet(kind: AdapterKind, base: RasterModel, a: Crs)
    requires
        offers_something(base),
    ensures
        ({
            let p = offer_at(kind, base, a);
            let x = any_of(kind);
            &&& p.meet(p) == Some(p)
            &&& p.meet(x) == Some(p)
            &&& x.meet(p) == Some(p)
            &&& p.equals(p)
            &&& !p.empty()
        }),
{
    field_facts(base.dtype, Dtype::F64);
    field_facts(base.bands, 1);
    field_facts(base.chunk_px, 256);
    range_facts(base.resolution);
    one_is_listed(a, a);
}

/// What a reprojection makes of an offer, and what is left of an offer
/// before a reprojection.
proof fn offers_pass(kind: AdapterKind, base: RasterModel, y: ResRange, from: Crs, to: Crs)
    requires
        offers_something(base),
        plain(y),
        !y.empty(),
    ensures
        ({
            let p = offer_at(kind, base, from);
            let q = offer_at(kind, ranged(base, y), to);
            let mask = elements::content_passes();
            &&& caps::projected(p, adapter_output(kind, FieldModel::OneOf(seq![to])), mask)
                == moved(kind, base, to)
            &&& caps::projected(q, p, mask) == p
            &&& caps::projected(p, adapter_output(kind, FieldModel::Any), mask).meet(q) == Some(q)
        }),
{
    field_facts(base.dtype, Dtype::F64);
    field_facts(base.bands, 1);
    field_facts(base.chunk_px, 256);
    range_facts(base.resolution);
    range_facts(y);
    one_is_listed(to, to);
}

/// The pattern that a reprojection lays its input onto.
spec fn adapter_output(kind: AdapterKind, crs: FieldModel<Crs>) -> PatternModel {
    match kind {
        AdapterKind::Raster => PatternModel::Raster(
            RasterModel { crs, ..RasterModel::unbounded() },
        ),
        AdapterKind::Vector => PatternModel::Vector(
            AreaModel { crs, ..AreaModel::unbounded() },
        ),
    }
}

/// How the fixed caps of one family meet.
proof fn fixed_meet(kind: AdapterKind, base: RasterModel, y: ResRange, from: Crs, to: Crs)
    requires
        offers_something(base),
        plain(y),
        !y.empty(),
    ensures
        ({
            let f = fixed_at(kind, base, from).as_pattern();
            let other = ranged(base, y);
            let t = fixed_at(kind, other, to).as_pattern();
            let mask = elements::content_passes();
            let through = caps::projected(
                f,
                adapter_output(kind, FieldModel::OneOf(seq![to])),
                mask,
            );
            &&& caps::fixed_caps(offer_at(kind, base, from)) == Some(fixed_at(kind, base, from))
            &&& !f.empty()
            &&& f.meet(any_of(kind)) == Some(f)
            &&& through.meet(offer_at(kind, other, to)) == Some(t)
            &&& t.meet(t) == Some(t)
            &&& t.meet(any_of(kind)) == Some(t)
            &&& t.meet(offer_at(kind, other, to)) == Some(t)
            &&& !t.empty()
            &&& caps::fixed_caps(t) == Some(fixed_at(kind, other, to))
        }),
{
    field_facts(base.dtype, Dtype::F64);
    field_facts(base.bands, 1);
    field_facts(base.chunk_px, 256);
    range_facts(base.resolution);
    range_facts(y);
    one_is_listed(from, from);
    one_is_listed(to, to);
}

// Sets of one pattern.

proof fn ones_meet(a: PatternModel, b: PatternModel)
    ensures
        caps::set_meet(seq![a], seq![b]) == (match a.meet(b) {
            Some(p) => seq![p],
            None => Seq::empty(),
        }),
        caps::set_meet(seq![a], Seq::empty()) == Seq::<PatternModel>::empty(),
        caps::set_meet(Seq::empty(), seq![b]) == Seq::<PatternModel>::empty(),
{
    let none = Seq::<PatternModel>::empty();
    assert(seq![a].drop_last() =~= none);
    assert(seq![b].drop_last() =~= none);
    assert(seq![a].last() == a && seq![b].last() == b);
    assert(caps::set_meet(none, seq![b]) == none);
    assert(caps::row_meet(none, a, none) == none);
    assert(caps::row_meet(none, a, seq![b].drop_last()) == none);
    match a.meet(b) {
        Some(p) => {
            assert(!caps::listed(none, p));
            assert(caps::with_new(none, p) =~= seq![p]);
        },
        None => {},
    }
    assert(caps::set_meet(seq![a], none) == caps::row_meet(
        caps::set_meet(none, none),
        a,
        none,
    ));
}

/// Of what no demand narrows, a pattern leaves itself.
proof fn any_meets(kind: AdapterKind, p: PatternModel)
    requires
        any_of(kind).meet(p) == Some(p),
    ensures
        caps::set_meet(caps::any_model(), seq![p]) == seq![p],
{
    let none = Seq::<PatternModel>::empty();
    let all = caps::any_model();
    let one = seq![p];
    assert(one.drop_last() =~= none && one.last() == p);
    assert(!caps::listed(none, p));
    assert(none.push(p) =~= one);
    let a1 = all.drop_last();
    let a2 = a1.drop_last();
    let a3 = a2.drop_last();
    assert(a3.drop_last() =~= none);
    assert(all.last() == all[3] && a1.last() == all[2] && a2.last() == all[1] && a3.last()
        == all[0]);
    assert(caps::set_meet(none, one) == none);
    assert forall|set: Seq<PatternModel>, a: PatternModel| a.meet(p) is None implies
        #[trigger] caps::row_meet(set, a, one) == set by {
        assert(caps::row_meet(set, a, one.drop_last()) == set);
    }
    assert forall|a: PatternModel| a.meet(p) == Some(p) implies #[trigger] caps::row_meet(
        none,
        a,
        one,
    ) == one by {
        assert(caps::row_meet(none, a, one.drop_last()) == none);
    }
    assert(a3.drop_last() == none);
    assert(caps::set_meet(a3, one) == caps::row_meet(none, all[0], one));
    assert(caps::set_meet(a2, one) == caps::row_meet(caps::set_meet(a3, one), all[1], one));
    assert(caps::set_meet(a1, one) == caps::row_meet(caps::set_meet(a2, one), all[2], one));
    assert(caps::set_meet(all, one) == caps::row_meet(caps::set_meet(a1, one), all[3], one));
    match kind {
        AdapterKind::Raster => {},
        AdapterKind::Vector => {},
    }
}

// Joins.

/// Sources that are alike but for their reference systems and resolutions,
/// and a resolution that all of them offer.
pub struct Family {
    pub kind: AdapterKind,
    pub base: RasterModel,
    pub crss: Seq<Crs>,
    pub ranges: Seq<ResRange>,
    pub shared: Real,
}

impl Family {
    pub open spec fn size(self) -> int {
        self.crss.len() as int
    }

    pub open spec fn with_range(self, r: ResRange, crs: Crs) -> PatternModel {
        offer_at(self.kind, ranged(self.base, r), crs)
    }

    pub open spec fn offer(self, k: int) -> PatternModel {
        self.with_range(self.ranges[k], self.crss[k])
    }

    pub open spec fn wf(self) -> bool {
        &&& names_something(self.base)
        &&& self.crss.len() > 0
        &&& 2 * self.crss.len() + 1 <= usize::MAX
        &&& self.ranges.len() == self.crss.len()
        &&& forall|k: int| 0 <= k < self.ranges.len() ==> plain(#[trigger] self.ranges[k])
        &&& forall|k: int|
            0 <= k < self.ranges.len() ==> (#[trigger] self.ranges[k]).holds(self.shared)
    }

    /// The resolutions that the first `k` sources on a system share.
    pub open spec fn meet_of(self, to: Crs, k: int) -> ResRange
        decreases k,
    {
        if k <= 0 {
            ResRange::unbounded()
        } else if self.crss[k - 1] == to {
            self.meet_of(to, k - 1).meet(self.ranges[k - 1])
        } else {
            self.meet_of(to, k - 1)
        }
    }

    /// What the sources on a system offer together.
    pub open spec fn common(self, to: Crs) -> PatternModel {
        self.with_range(self.meet_of(to, self.size()), to)
    }
}

proof fn common_is_fine(f: Family, to: Crs, k: int)
    requires
        f.wf(),
        0 <= k <= f.size(),
    ensures
        plain(f.meet_of(to, k)),
        f.meet_of(to, k).holds(f.shared),
        !f.meet_of(to, k).empty(),
        forall|j: int|
            0 <= j < k && #[trigger] f.crss[j] == to ==> finer(f.meet_of(to, k), f.ranges[j]),
    decreases k,
{
    let one = f.ranges[0];
    assert(plain(one) && one.holds(f.shared));
    ranges_meet(one, one, f.shared);
    if k > 0 {
        common_is_fine(f, to, k - 1);
        let before = f.meet_of(to, k - 1);
        let own = f.ranges[k - 1];
        assert(plain(own) && own.holds(f.shared));
        ranges_meet(before, own, f.shared);
        assert forall|j: int| 0 <= j < k && #[trigger] f.crss[j] == to implies finer(
            f.meet_of(to, k),
            f.ranges[j],
        ) by {
            if j < k - 1 {
                assert(finer(before, f.ranges[j]));
            }
        }
    } else {
        range_facts(one);
    }
}

/// What holds of a range of the family.
spec fn fits(f: Family, r: ResRange) -> bool {
    plain(r) && r.holds(f.shared)
}

proof fn offers_in_family(f: Family, x: ResRange, y: ResRange, a: Crs, b: Crs)
    requires
        f.wf(),
        fits(f, x),
        fits(f, y),
    ensures
        ({
            let p = f.with_range(x, a);
            let q = f.with_range(y, b);
            let any = any_of(f.kind);
            &&& caps::set_meet(seq![p], seq![q]) == (if a == b {
                seq![f.with_range(x.meet(y), a)]
            } else {
                Seq::empty()
            })
            &&& caps::set_meet(seq![p], seq![any]) == seq![p]
            &&& caps::set_meet(seq![any], seq![p]) == seq![p]
            &&& caps::set_meet(caps::any_model(), seq![p]) == seq![p]
            &&& fits(f, x.meet(y))
            &&& offers_something(ranged(f.base, x))
            &&& finer(x, y) ==> x.meet(y) == x && y.meet(x) == x
            &&& p.equals(p)
        }),
{
    ranges_meet(x, y, f.shared);
    ranges_meet(y, x, f.shared);
    ranges_meet(x, x, f.shared);
    ranged_meet(f.kind, f.base, x, y, a, b);
    offers_meet(f.kind, ranged(f.base, x), a);
    let p = f.with_range(x, a);
    ones_meet(p, f.with_range(y, b));
    ones_meet(p, any_of(f.kind));
    ones_meet(any_of(f.kind), p);
    any_meets(f.kind, p);
}

proof fn free_fits(f: Family)
    requires
        f.wf(),
    ensures
        fits(f, ResRange::unbounded()),
        forall|r: ResRange| #[trigger] fits(f, r) ==> finer(r, ResRange::unbounded()),
{
    let one = f.ranges[0];
    assert(plain(one) && one.holds(f.shared));
    ranges_meet(one, one, f.shared);
    assert forall|r: ResRange| #[trigger] fits(f, r) implies finer(r, ResRange::unbounded()) by {
        ranges_meet(r, r, f.shared);
    }
}

/// The node that an input of a join comes from: the source itself where it
/// is on the reference system, else an adapter behind it.
pub open spec fn input_is_there(s: Shape, f: Family, to: Crs, k: int) -> bool {
    let from = s.parents[f.size()][k];
    if f.crss[k] == to {
        from == k
    } else {
        f.size() < from < s.parents.len() && s.parents[from as int] == seq![k as usize]
    }
}

/// A node is an adapter behind one of the sources.
pub open spec fn adapts_one(s: Shape, f: Family, a: int, k: int) -> bool {
    0 <= k < f.size() && s.parents[a] == seq![k as usize] && s.parents[f.size()][k] == a
}

pub open spec fn is_adapter(s: Shape, f: Family, a: int) -> bool {
    exists|k: int| #[trigger] adapts_one(s, f, a, k)
}

/// A graph joins the sources on one reference system: those that are on it
/// come straight to the join, every other through an adapter of its own.
pub open spec fn joined_on(s: Shape, f: Family, to: Crs) -> bool {
    let n = f.size();
    &&& s.demands.len() == s.parents.len()
    &&& n < s.parents.len() <= usize::MAX
    &&& forall|i: int|
        0 <= i < n ==> s.demands[i] == ConstraintModel::Produces(seq![#[trigger] f.offer(i)])
    &&& forall|i: int| 0 <= i < n ==> (#[trigger] s.parents[i]).len() == 0
    &&& s.demands[n] == ConstraintModel::Identity(seq![any_of(f.kind)])
    &&& s.parents[n].len() == n
    &&& forall|k: int| 0 <= k < n ==> #[trigger] input_is_there(s, f, to, k)
    &&& forall|a: int|
        n < a < s.parents.len() ==> #[trigger] s.demands[a] == plug::plugged_demand(f.kind, to)
    &&& forall|a: int|
        n < a < s.parents.len() ==> #[trigger] is_adapter(s, f, a)
    &&& f.crss.contains(to)
}

/// The source behind an adapter.
spec fn source_of(s: Shape, f: Family, a: int) -> int {
    choose|k: int| #[trigger] adapts_one(s, f, a, k)
}

proof fn adapters_adapt(s: Shape, f: Family, to: Crs, a: int)
    requires
        joined_on(s, f, to),
        f.size() < a < s.parents.len(),
    ensures
        adapts_one(s, f, a, source_of(s, f, a)),
        f.crss[source_of(s, f, a)] != to,
{
    assert(s.demands[a] == plug::plugged_demand(f.kind, to));
    let k = source_of(s, f, a);
    assert(is_adapter(s, f, a));
    assert(adapts_one(s, f, a, k));
    assert(input_is_there(s, f, to, k));
}

proof fn join_is_sound(s: Shape, f: Family, to: Crs)
    requires
        f.wf(),
        joined_on(s, f, to),
    ensures
        s.problem().wf(),
{
    let n = f.size();
    let rank = Seq::new(
        s.parents.len(),
        |i: int|
            if i < n {
                0nat
            } else if i == n {
                2nat
            } else {
                1nat
            },
    );
    assert forall|i: int, k: int|
        #![trigger s.parents[i][k]]
        0 <= i < s.parents.len() && 0 <= k < s.parents[i].len() implies s.parents[i][k]
        < s.parents.len() && rank[s.parents[i][k] as int] < rank[i] by {
        if i < n {
            assert(s.parents[i].len() == 0);
        } else if i == n {
            assert(input_is_there(s, f, to, k));
        } else {
            adapters_adapt(s, f, to, i);
        }
    }
    assert(graph::ranked(s.parents, rank));
    graph::walk_order_is_parents_first(s.parents);
}

/// The resolutions of a node's link while negotiation goes on: those of an
/// input of the join may not be met with the others' yet.
spec fn range_on_the_way(f: Family, to: Crs, i: int, x: ResRange) -> bool {
    let all = f.meet_of(to, f.size());
    if i < f.size() {
        x == f.ranges[i] || (f.crss[i] == to && x == all)
    } else if i == f.size() {
        x == all
    } else {
        x == ResRange::unbounded() || x == all
    }
}

/// The system of a node's link.
spec fn crs_at(f: Family, to: Crs, i: int) -> Crs {
    if i < f.size() {
        f.crss[i]
    } else {
        to
    }
}

spec fn link_is(f: Family, to: Crs, links: Links, i: int, x: ResRange) -> bool {
    links[i] == seq![f.with_range(x, crs_at(f, to, i))] && range_on_the_way(f, to, i, x)
}

/// The links while negotiation goes on.
spec fn on_the_way(s: Shape, f: Family, to: Crs, links: Links, i: int) -> bool {
    exists|x: ResRange| #[trigger] link_is(f, to, links, i, x)
}

spec fn range_of(f: Family, to: Crs, links: Links, i: int) -> ResRange {
    choose|x: ResRange| #[trigger] link_is(f, to, links, i, x)
}

proof fn range_fits(s: Shape, f: Family, to: Crs, links: Links, i: int)
    requires
        f.wf(),
        i >= 0,
        on_the_way(s, f, to, links, i),
    ensures
        ({
            let x = range_of(f, to, links, i);
            &&& link_is(f, to, links, i, x)
            &&& fits(f, x)
            &&& crs_at(f, to, i) == to ==> finer(f.meet_of(to, f.size()), x)
            &&& i < f.size() && f.crss[i] == to ==> finer(x, f.ranges[i])
        }),
{
    let x = range_of(f, to, links, i);
    assert(link_is(f, to, links, i, x));
    common_is_fine(f, to, f.size());
    free_fits(f);
    assert(fits(f, f.meet_of(to, f.size())));
    if i < f.size() {
        assert(plain(f.ranges[i]) && f.ranges[i].holds(f.shared));
    }
}

spec fn all_on_the_way(s: Shape, f: Family, to: Crs, links: Links) -> bool {
    &&& links.len() == s.parents.len()
    &&& forall|i: int| 0 <= i < links.len() ==> #[trigger] on_the_way(s, f, to, links, i)
}

/// The links that negotiation ends with.
spec fn ends(s: Shape, f: Family, to: Crs) -> Links {
    Seq::new(
        s.parents.len(),
        |i: int|
            if i < f.size() && f.crss[i] != to {
                seq![f.offer(i)]
            } else {
                seq![f.common(to)]
            },
    )
}

/// The links when a forward sweep is at place `k`.
spec fn swept_to(s: Shape, f: Family, to: Crs, links: Links, k: int) -> bool {
    &&& links.len() == s.parents.len()
    &&& forall|i: int|
        0 <= i < links.len() ==> links[i] == caps::any_model() || #[trigger] on_the_way(
            s,
            f,
            to,
            links,
            i,
        )
    &&& forall|m: int|
        0 <= m < k ==> on_the_way(
            s,
            f,
            to,
            links,
            #[trigger] s.problem().order[m] as int,
        )
}

proof fn parents_are_placed(s: Shape, f: Family, to: Crs, links: Links, k: int, j: int)
    requires
        s.problem().wf(),
        swept_to(s, f, to, links, k),
        0 <= k < s.problem().order.len(),
        0 <= j < s.parents[s.problem().order[k] as int].len(),
    ensures
        on_the_way(s, f, to, links, s.parents[s.problem().order[k] as int][j] as int),
{
    let order = s.problem().order;
    let i = order[k] as int;
    let q = s.parents[i][j];
    assert(order[k] < s.parents.len());
    assert(graph::parents_in(s.parents, order.take(k), order[k] as int));
    assert(order.take(k).contains(q));
    let m = order.take(k).index_of(q);
    assert(order.take(k)[m] == q);
    assert(order[m] == q);
}

/// The resolutions that the first `k` inputs of the join offer together.
spec fn met_to(s: Shape, f: Family, to: Crs, links: Links, k: int) -> ResRange
    decreases k,
{
    let own = range_of(f, to, links, s.parents[f.size()][k - 1] as int);
    if k <= 1 {
        own
    } else {
        met_to(s, f, to, links, k - 1).meet(own)
    }
}

/// What the inputs of the join offer together.
proof fn inputs_offer(s: Shape, f: Family, to: Crs, links: Links, k: int)
    requires
        f.wf(),
        joined_on(s, f, to),
        1 <= k <= f.size(),
        forall|j: int|
            0 <= j < f.size() ==> on_the_way(
                s,
                f,
                to,
                links,
                (#[trigger] s.parents[f.size()][j]) as int,
            ),
    ensures
        ({
            let x = met_to(s, f, to, links, k);
            &&& solver::offered(links, s.parents[f.size()], k) == seq![f.with_range(x, to)]
            &&& fits(f, x)
            &&& finer(f.meet_of(to, f.size()), x)
            &&& finer(x, f.meet_of(to, k))
        }),
    decreases k,
{
    let n = f.size();
    let from = s.parents[n][k - 1];
    assert(input_is_there(s, f, to, k - 1));
    assert(on_the_way(s, f, to, links, from as int));
    range_fits(s, f, to, links, from as int);
    let own = range_of(f, to, links, from as int);
    assert(crs_at(f, to, from as int) == to);
    common_is_fine(f, to, n);
    common_is_fine(f, to, k - 1);
    free_fits(f);
    let all = f.meet_of(to, n);
    let low = f.meet_of(to, k - 1);
    let x = met_to(s, f, to, links, k);
    if k > 1 {
        inputs_offer(s, f, to, links, k - 1);
        let before = met_to(s, f, to, links, k - 1);
        offers_in_family(f, before, own, to, to);
        ranges_meet(before, own, f.shared);
        assert(finer(all, x));
        assert(finer(x, low));
    } else {
        assert(fits(f, own));
        assert(finer(own, low));
    }
    if f.crss[k - 1] == to {
        let mine = f.ranges[k - 1];
        assert(plain(mine) && mine.holds(f.shared));
        ranges_meet(low, mine, f.shared);
        assert(finer(x, own));
        assert(finer(own, mine));
        assert(finer(x, low) && finer(x, mine));
    }
}

proof fn a_step_goes_on(s: Shape, f: Family, to: Crs, links: Links, k: int)
    requires
        f.wf(),
        joined_on(s, f, to),
        swept_to(s, f, to, links, k),
        0 <= k < s.problem().order.len(),
    ensures
        ({
            let i = s.problem().order[k];
            let step = solver::forward_step(s.demands[i as int], s.parents[i as int], links, i);
            &&& step matches Ok(link) && swept_to(s, f, to, links.update(i as int, link), k + 1)
                && (links[i as int] == ends(s, f, to)[i as int] ==> link == links[i as int])
        }),
{
    join_is_sound(s, f, to);
    let order = s.problem().order;
    let n = f.size();
    let i = order[k];
    assert(order[k] < s.parents.len());
    let all = f.meet_of(to, n);
    let free = ResRange::unbounded();
    let p = f.common(to);
    let q = f.with_range(free, to);
    let x = any_of(f.kind);
    common_is_fine(f, to, n);
    free_fits(f);
    assert(fits(f, all));
    offers_in_family(f, all, all, to, to);
    offers_in_family(f, all, free, to, to);
    offers_in_family(f, free, free, to, to);
    let step = solver::forward_step(s.demands[i as int], s.parents[i as int], links, i);
    assert(links[i as int] == caps::any_model() || on_the_way(s, f, to, links, i as int));
    if i < n {
        let mine = f.ranges[i as int];
        let own = f.offer(i as int);
        assert(plain(mine) && mine.holds(f.shared));
        assert(fits(f, mine));
        offers_in_family(f, mine, mine, f.crss[i as int], to);
        offers_in_family(f, mine, mine, f.crss[i as int], f.crss[i as int]);
        ranges_meet(mine, mine, f.shared);
        assert(s.parents[i as int].len() == 0);
        assert(s.demands[i as int] == ConstraintModel::Produces(seq![own]));
        if f.crss[i as int] == to {
            assert(finer(all, mine));
            offers_in_family(f, all, mine, to, to);
        }
        if links[i as int] != caps::any_model() {
            range_fits(s, f, to, links, i as int);
        }
        assert(step matches Ok(link) && (link == seq![own] || (f.crss[i as int] == to && link
            == seq![p])));
        let link = step->Ok_0;
        let got = if link == seq![own] {
            mine
        } else {
            all
        };
        assert(link_is(f, to, links.update(i as int, link), i as int, got));
    } else if i == n {
        assert forall|j: int| 0 <= j < n implies on_the_way(
            s,
            f,
            to,
            links,
            (#[trigger] s.parents[n][j]) as int,
        ) by {
            parents_are_placed(s, f, to, links, k, j);
        }
        inputs_offer(s, f, to, links, n);
        ranges_are_one(met_to(s, f, to, links, n), all);
        assert(solver::offered(links, s.parents[n], n) == seq![p]);
        if links[n] != caps::any_model() {
            range_fits(s, f, to, links, n);
        }
        assert(step == Ok::<Seq<PatternModel>, Fault>(seq![p]));
        assert(link_is(f, to, links.update(n, seq![p]), n, all));
    } else {
        adapters_adapt(s, f, to, i as int);
        let src = source_of(s, f, i as int);
        assert(s.demands[i as int] == plug::plugged_demand(f.kind, to));
        parents_are_placed(s, f, to, links, k, 0);
        assert(s.parents[i as int][0] == src);
        range_fits(s, f, to, links, src);
        let mine = f.ranges[src];
        let own = f.offer(src);
        assert(links[src] == seq![own]);
        offers_in_family(f, mine, mine, f.crss[src], to);
        offers_pass(f.kind, ranged(f.base, mine), mine, f.crss[src], to);
        assert(solver::offered(links, s.parents[i as int], 1) == seq![own]);
        let made = s.demands[i as int].outputs(seq![own]);
        assert(moved(f.kind, ranged(f.base, mine), to) == q);
        assert(made =~= seq![q]);
        if links[i as int] != caps::any_model() {
            range_fits(s, f, to, links, i as int);
        }
        assert(step matches Ok(link) && (link == seq![q] || link == seq![p]));
        let link = step->Ok_0;
        let got = if link == seq![q] {
            free
        } else {
            all
        };
        assert(link_is(f, to, links.update(i as int, link), i as int, got));
    }
    let link = step->Ok_0;
    let next = links.update(i as int, link);
    assert(on_the_way(s, f, to, next, i as int));
    assert forall|j: int| 0 <= j < next.len() implies next[j] == caps::any_model()
        || #[trigger] on_the_way(s, f, to, next, j) by {
        if j != i {
            assert(links[j] == caps::any_model() || on_the_way(s, f, to, links, j));
            if links[j] != caps::any_model() {
                let y = range_of(f, to, links, j);
                assert(link_is(f, to, links, j, y));
                assert(link_is(f, to, next, j, y));
            }
        }
    }
    assert forall|m: int| 0 <= m < k + 1 implies on_the_way(
        s,
        f,
        to,
        next,
        #[trigger] order[m] as int,
    ) by {
        if m < k {
            assert(order[m] != order[k]);
            let z = order[m] as int;
            assert(on_the_way(s, f, to, links, z));
            let y = range_of(f, to, links, z);
            assert(link_is(f, to, links, z, y));
            assert(link_is(f, to, next, z, y));
        }
    }
}

proof fn forward_goes_on(s: Shape, f: Family, to: Crs, links: Links, k: int)
    requires
        f.wf(),
        joined_on(s, f, to),
        swept_to(s, f, to, links, k),
        0 <= k <= s.problem().order.len(),
    ensures
        s.problem().forward(links, k) matches Ok(next) && all_on_the_way(s, f, to, next) && (links
            == ends(s, f, to) ==> next == links),
    decreases s.problem().order.len() - k,
{
    let order = s.problem().order;
    join_is_sound(s, f, to);
    if k < order.len() {
        a_step_goes_on(s, f, to, links, k);
        let i = order[k];
        assert(order[k] < s.parents.len());
        let link = solver::forward_step(s.demands[i as int], s.parents[i as int], links, i)->Ok_0;
        if links == ends(s, f, to) {
            assert(links.update(i as int, link) =~= links);
        }
        forward_goes_on(s, f, to, links.update(i as int, link), k + 1);
    } else {
        assert forall|i: int| 0 <= i < links.len() implies #[trigger] on_the_way(
            s,
            f,
            to,
            links,
            i,
        ) by {
            let m = solver::place_of(s.problem(), i);
            assert(on_the_way(s, f, to, links, order[m] as int));
        }
    }
}

proof fn one_child(parents: Seq<Seq<usize>>, id: usize, c: int, n: int)
    requires
        0 <= n <= parents.len() <= usize::MAX,
        forall|j: int|
            0 <= j < parents.len() ==> (#[trigger] parents[j]).contains(id) == (j == c),
    ensures
        graph::children_among(parents, id, n) == (if 0 <= c < n {
            seq![c as usize]
        } else {
            Seq::empty()
        }),
    decreases n,
{
    if n > 0 {
        one_child(parents, id, c, n - 1);
        assert(parents[n - 1].contains(id) == (n - 1 == c));
        if n - 1 == c {
            assert(Seq::<usize>::empty().push(c as usize) =~= seq![c as usize]);
        }
    }
}

/// The only node that reads from a node: the join from what comes straight
/// to it, the adapter from the source behind it, none from the join.
spec fn reader_of(s: Shape, f: Family, to: Crs, i: int) -> int {
    if i == f.size() {
        -1
    } else if i < f.size() && f.crss[i] != to {
        s.parents[f.size()][i] as int
    } else {
        f.size()
    }
}

proof fn reader_reads(s: Shape, f: Family, to: Crs, i: int)
    requires
        f.wf(),
        joined_on(s, f, to),
        0 <= i < s.parents.len(),
    ensures
        graph::children_among(s.parents, i as usize, s.parents.len() as int) == (if i == f.size() {
            Seq::empty()
        } else {
            seq![reader_of(s, f, to, i) as usize]
        }),
        i != f.size() ==> 0 <= reader_of(s, f, to, i) < s.parents.len(),
{
    let n = f.size();
    let c = reader_of(s, f, to, i);
    if i < n {
        assert(input_is_there(s, f, to, i));
        assert(s.parents[n][i] == s.parents[n][i]);
    }
    assert forall|j: int| 0 <= j < s.parents.len() implies (
    #[trigger] s.parents[j]).contains(i as usize) == (j == c) by {
        if j < n {
            assert(s.parents[j].len() == 0);
            if i < n && f.crss[i] != to {
                assert(c > n);
            }
        } else if j == n {
            if s.parents[n].contains(i as usize) {
                let k = s.parents[n].index_of(i as usize);
                assert(s.parents[n][k] == i);
                assert(input_is_there(s, f, to, k));
                if f.crss[k] == to {
                    assert(k == i);
                }
            }
            if c == n {
                if i < n {
                    assert(s.parents[n][i] == i);
                    assert(s.parents[n].contains(i as usize));
                } else {
                    adapters_adapt(s, f, to, i);
                    let k = source_of(s, f, i);
                    assert(s.parents[n][k] == i);
                    assert(s.parents[n].contains(i as usize));
                }
            }
        } else {
            adapters_adapt(s, f, to, j);
            let k = source_of(s, f, j);
            assert(s.parents[j] == seq![k as usize]);
            assert(s.parents[j][0] == k);
            if s.parents[j].contains(i as usize) {
                let z = s.parents[j].index_of(i as usize);
                assert(s.parents[j][z] == i);
                assert(k == i);
            }
            if j == c {
                assert(i < n && f.crss[i] != to);
                assert(s.parents[c] == seq![i as usize]);
            }
        }
    }
    one_child(s.parents, i as usize, c, s.parents.len() as int);
}

/// What the join pins on one of its inputs.
proof fn join_pins(s: Shape, f: Family, to: Crs, links: Links, i: usize, m: int)
    requires
        f.wf(),
        joined_on(s, f, to),
        all_on_the_way(s, f, to, links),
        0 <= m <= f.size(),
    ensures
        s.problem().pin(links, f.size() as usize, i, m) == seq![f.common(to)],
    decreases m,
{
    let n = f.size();
    let all = f.meet_of(to, n);
    assert(on_the_way(s, f, to, links, n));
    range_fits(s, f, to, links, n);
    if m > 0 {
        join_pins(s, f, to, links, i, m - 1);
        assert(input_is_there(s, f, to, m - 1));
        let from = s.parents[n][m - 1];
        assert(on_the_way(s, f, to, links, from as int));
        range_fits(s, f, to, links, from as int);
        common_is_fine(f, to, n);
        assert(crs_at(f, to, from as int) == to);
        offers_in_family(f, all, range_of(f, to, links, from as int), to, to);
    }
}

proof fn a_reader_leaves(s: Shape, f: Family, to: Crs, links: Links, i: int)
    requires
        f.wf(),
        joined_on(s, f, to),
        all_on_the_way(s, f, to, links),
        0 <= i < s.parents.len(),
        i != f.size(),
    ensures
        s.problem().left_by_child(links, reader_of(s, f, to, i) as usize, i as usize) == ends(
            s,
            f,
            to,
        )[i],
{
    let n = f.size();
    let c = reader_of(s, f, to, i);
    let all = f.meet_of(to, n);
    let p = f.common(to);
    let x = any_of(f.kind);
    reader_reads(s, f, to, i);
    assert(on_the_way(s, f, to, links, i));
    range_fits(s, f, to, links, i);
    common_is_fine(f, to, n);
    let own = range_of(f, to, links, i);
    offers_in_family(f, own, all, crs_at(f, to, i), to);
    offers_in_family(f, all, own, to, to);
    if c == n {
        join_pins(s, f, to, links, i as usize, n);
        assert(s.demands[c] == ConstraintModel::Identity(seq![x]));
        if i < n {
            assert(input_is_there(s, f, to, i));
            assert(f.crss[i] == to);
        }
        assert(crs_at(f, to, i) == to);
        assert(caps::set_meet(links[i], seq![x]) == links[i]);
        assert(own.meet(all) == all);
        assert(caps::set_meet(links[i], seq![p]) == seq![p]);
        assert(s.problem().left_by_child(links, c as usize, i as usize) == seq![p]);
    } else {
        assert(input_is_there(s, f, to, i));
        let mine = f.offer(i);
        assert(own == f.ranges[i]);
        assert(s.demands[c] == plug::plugged_demand(f.kind, to));
        assert(s.parents[c] == seq![i as usize]);
        assert(on_the_way(s, f, to, links, c));
        range_fits(s, f, to, links, c);
        let above = range_of(f, to, links, c);
        offers_in_family(f, above, above, to, to);
        offers_pass(f.kind, ranged(f.base, own), above, f.crss[i], to);
        offers_meet(f.kind, ranged(f.base, own), f.crss[i]);
        let pin = s.problem().pin(links, c as usize, i as usize, 1);
        assert(s.problem().pin(links, c as usize, i as usize, 0) == links[c]);
        assert(pin == links[c]);
        let mask = elements::content_passes();
        assert(ranged(ranged(f.base, own), above) == ranged(f.base, above));
        assert(pin.len() == 1 && pin[0] == f.with_range(above, to));
        assert(caps::first_pinned(mine, pin, mask) == Some(mine));
        let left = caps::pinned_inputs(seq![mine], pin, mask);
        assert(seq![mine].drop_last() =~= Seq::<PatternModel>::empty());
        assert(seq![mine].last() == mine);
        assert(caps::pinned_inputs(Seq::<PatternModel>::empty(), pin, mask)
            == Seq::<PatternModel>::empty());
        assert(left =~= seq![mine]);
        assert(s.demands[c].accepts() == seq![x]);
        assert(caps::set_meet(links[i], seq![x]) == seq![mine]);
        assert(s.demands[c].narrowed(seq![mine], pin) == left);
        assert(s.parents[c].len() == 1);
    }
}

/// The links once a backward sweep is through the first `k` places.
proof fn backward_goes_on(s: Shape, f: Family, to: Crs, links: Links, k: int)
    requires
        f.wf(),
        joined_on(s, f, to),
        all_on_the_way(s, f, to, links),
        0 <= k <= s.problem().order.len(),
        forall|m: int|
            k <= m < s.problem().order.len() ==> links[#[trigger] s.problem().order[m] as int]
                == ends(s, f, to)[s.problem().order[m] as int],
    ensures
        s.problem().backward(links, k) == Ok::<Links, Fault>(ends(s, f, to)),
    decreases k,
{
    let pr = s.problem();
    let order = pr.order;
    let n = f.size();
    join_is_sound(s, f, to);
    if k > 0 {
        let i = order[k - 1];
        assert(order[k - 1] < s.parents.len());
        reader_reads(s, f, to, i as int);
        let children = graph::children_among(s.parents, i, s.parents.len() as int);
        assert(on_the_way(s, f, to, links, i as int));
        let next = links.update(i as int, ends(s, f, to)[i as int]);
        if i == n {
            assert(children.len() == 0);
            let y = range_of(f, to, links, n);
            assert(link_is(f, to, links, n, y));
            assert(next =~= links);
            assert(pr.backward_children(links, i, children, 0) == Ok::<Links, Fault>(links));
        } else {
            a_reader_leaves(s, f, to, links, i as int);
            assert(children.len() == 1);
            let left = pr.left_by_child(links, children[0], i);
            assert(left == ends(s, f, to)[i as int]);
            assert(left.len() == 1);
            assert(pr.backward_children(next, i, children, 1) == Ok::<Links, Fault>(next));
            assert(pr.backward_children(links, i, children, 0) == Ok::<Links, Fault>(next));
        }
        assert forall|j: int| 0 <= j < next.len() implies #[trigger] on_the_way(
            s,
            f,
            to,
            next,
            j,
        ) by {
            assert(on_the_way(s, f, to, links, j));
            let y = range_of(f, to, links, j);
            assert(link_is(f, to, links, j, y));
            if j != i {
                assert(link_is(f, to, next, j, y));
            } else if j < n && f.crss[j] != to {
                assert(link_is(f, to, next, j, f.ranges[j]));
            } else {
                assert(link_is(f, to, next, j, f.meet_of(to, n)));
            }
        }
        assert forall|m: int| k - 1 <= m < order.len() implies next[#[trigger] order[m] as int]
            == ends(s, f, to)[order[m] as int] by {
            if m > k - 1 {
                assert(order[m] != order[k - 1]);
            }
        }
        backward_goes_on(s, f, to, next, k - 1);
    } else {
        assert forall|i: int| 0 <= i < links.len() implies #[trigger] links[i] == ends(
            s,
            f,
            to,
        )[i] by {
            let m = solver::place_of(pr, i);
            assert(links[order[m] as int] == ends(s, f, to)[order[m] as int]);
        }
        assert(links =~= ends(s, f, to));
    }
}

proof fn sweeps_end(s: Shape, f: Family, to: Crs)
    requires
        f.wf(),
        joined_on(s, f, to),
    ensures
        s.problem().negotiated() == Ok::<Links, Fault>(ends(s, f, to)),
{
    let pr = s.problem();
    let open = Seq::new(pr.size(), |i: int| caps::any_model());
    let done = ends(s, f, to);
    join_is_sound(s, f, to);
    forward_goes_on(s, f, to, open, 0);
    let first = pr.forward(open, 0)->Ok_0;
    backward_goes_on(s, f, to, first, pr.order.len() as int);
    assert(pr.sweep(open) == Ok::<Links, Fault>(done));
    assert forall|i: int| 0 <= i < done.len() implies #[trigger] on_the_way(s, f, to, done, i) by {
        if i < f.size() && f.crss[i] != to {
            assert(link_is(f, to, done, i, f.ranges[i]));
        } else {
            assert(link_is(f, to, done, i, f.meet_of(to, f.size())));
        }
    }
    assert(swept_to(s, f, to, done, 0));
    forward_goes_on(s, f, to, done, 0);
    assert(all_on_the_way(s, f, to, done));
    backward_goes_on(s, f, to, done, pr.order.len() as int);
    assert(pr.sweep(done) == Ok::<Links, Fault>(done));
    assert forall|i: int| 0 <= i < done.len() implies caps::same_set(
        #[trigger] done[i],
        done[i],
    ) by {
        let y = if i < f.size() && f.crss[i] != to {
            f.ranges[i]
        } else {
            f.meet_of(to, f.size())
        };
        common_is_fine(f, to, f.size());
        if i < f.size() {
            assert(plain(f.ranges[i]) && f.ranges[i].holds(f.shared));
        }
        offers_in_family(f, y, y, crs_at(f, to, i), to);
    }
    assert(solver::same_links(done, done));
    let most = (8 * pr.size() + 4) as nat;
    assert(pr.narrowed(done, (most - 1) as nat) == Ok::<Links, Fault>(done));
    assert(pr.narrowed(open, most) == Ok::<Links, Fault>(done));
}

// Fixation.

proof fn one_candidate(p: PatternModel, c: Caps)
    requires
        caps::fixed_caps(p) == Some(c),
    ensures
        solver::distinct_caps(seq![p]) == seq![c],
{
    assert(seq![p].drop_last() =~= Seq::<PatternModel>::empty());
    assert(seq![p].last() == p);
    let none = solver::distinct_caps(Seq::<PatternModel>::empty());
    assert(none == Seq::<Caps>::empty());
    assert(!solver::caps_listed(none, c));
    assert(none.push(c) =~= seq![c]);
}

spec fn choice(s: Shape, f: Family, to: Crs) -> Seq<Option<Caps>> {
    Seq::new(
        s.parents.len(),
        |i: int|
            Some(
                if i < f.size() && f.crss[i] != to {
                    fixed_at(f.kind, ranged(f.base, f.ranges[i]), f.crss[i])
                } else {
                    fixed_at(f.kind, ranged(f.base, f.meet_of(to, f.size())), to)
                },
            ),
    )
}

proof fn inputs_are_fixed(s: Shape, f: Family, to: Crs, k: int)
    requires
        f.wf(),
        joined_on(s, f, to),
        1 <= k <= f.size(),
    ensures
        s.problem().fixed_input(choice(s, f, to), s.parents[f.size()], k) == Some(
            fixed_at(f.kind, ranged(f.base, f.meet_of(to, f.size())), to).as_pattern(),
        ),
    decreases k,
{
    let n = f.size();
    let all = f.meet_of(to, n);
    let own = ranged(f.base, all);
    common_is_fine(f, to, n);
    fixed_meet(f.kind, own, all, to, to);
    assert(ranged(own, all) == own);
    assert(input_is_there(s, f, to, k - 1));
    let from = s.parents[n][k - 1];
    assert(choice(s, f, to)[from as int] == Some(fixed_at(f.kind, own, to)));
    if k > 1 {
        inputs_are_fixed(s, f, to, k - 1);
    }
}

proof fn choice_is_consistent(s: Shape, f: Family, to: Crs)
    requires
        f.wf(),
        joined_on(s, f, to),
    ensures
        s.problem().consistent(ends(s, f, to), choice(s, f, to)),
{
    let pr = s.problem();
    let links = ends(s, f, to);
    let fixed = choice(s, f, to);
    let n = f.size();
    let all = f.meet_of(to, n);
    let joint = ranged(f.base, all);
    let p = f.common(to);
    let x = any_of(f.kind);
    let t = fixed_at(f.kind, joint, to).as_pattern();
    common_is_fine(f, to, n);
    fixed_meet(f.kind, joint, all, to, to);
    assert(ranged(joint, all) == joint);
    assert forall|i: int| 0 <= i < fixed.len() implies pr.candidates(
        links,
        fixed,
        i as usize,
    ).contains((#[trigger] fixed[i])->0) by {
        let own = pr.choices(links, fixed, i as usize);
        if i < n {
            assert(s.parents[i].len() == 0);
            let mine = ranged(f.base, f.ranges[i]);
            assert(plain(f.ranges[i]) && f.ranges[i].holds(f.shared));
            ranges_meet(f.ranges[i], f.ranges[i], f.shared);
            fixed_meet(f.kind, mine, all, f.crss[i], to);
            if f.crss[i] == to {
                one_candidate(p, fixed[i]->0);
                assert(own == seq![p]);
            } else {
                one_candidate(f.offer(i), fixed[i]->0);
                assert(own == seq![f.offer(i)]);
            }
        } else if i == n {
            inputs_are_fixed(s, f, to, n);
            ones_meet(t, x);
            ones_meet(t, p);
            assert(own == seq![t]);
            one_candidate(t, fixed[i]->0);
        } else {
            adapters_adapt(s, f, to, i);
            let k = source_of(s, f, i);
            let mine = ranged(f.base, f.ranges[k]);
            let from = fixed_at(f.kind, mine, f.crss[k]).as_pattern();
            assert(plain(f.ranges[k]) && f.ranges[k].holds(f.shared));
            ranges_meet(f.ranges[k], f.ranges[k], f.shared);
            fixed_meet(f.kind, mine, all, f.crss[k], to);
            assert(ranged(mine, all) == joint);
            assert(s.demands[i] == plug::plugged_demand(f.kind, to));
            assert(s.parents[i][0] == k);
            assert(pr.fixed_input(fixed, s.parents[i], 1) == Some(from));
            ones_meet(from, x);
            let through = caps::projected(
                from,
                adapter_output(f.kind, FieldModel::OneOf(seq![to])),
                elements::content_passes(),
            );
            assert(s.demands[i].outputs(seq![from]) =~= seq![through]);
            ones_meet(through, p);
            assert(own == seq![t]);
            one_candidate(t, fixed[i]->0);
        }
        let all = pr.candidates(links, fixed, i as usize);
        assert(all[0] == fixed[i]->0);
    }
}

/// The reference system of fixed caps.
pub open spec fn crs_of(c: Caps) -> Crs {
    match c {
        Caps::Raster(r) => r.crs,
        Caps::PointCloud(p) => p.crs,
        Caps::Vector(v) => v.crs,
        Caps::Tensor(t) => t.crs,
    }
}

proof fn meets_with_one(xs: Seq<PatternModel>, y: PatternModel, k: int) -> (x: PatternModel)
    requires
        0 <= k < caps::set_meet(xs, seq![y]).len(),
    ensures
        x.meet(y) == Some(caps::set_meet(xs, seq![y])[k]),
    decreases xs.len(),
{
    let before = caps::set_meet(xs.drop_last(), seq![y]);
    let a = xs.last();
    assert(seq![y].drop_last() =~= Seq::<PatternModel>::empty());
    assert(seq![y].last() == y);
    assert(caps::row_meet(before, a, Seq::<PatternModel>::empty()) == before);
    assert(caps::row_meet(before, a, seq![y].drop_last()) == before);
    if k < before.len() {
        meets_with_one(xs.drop_last(), y, k)
    } else {
        a
    }
}

proof fn fixed_on(kind: AdapterKind, base: RasterModel, to: Crs, x: PatternModel, c: Caps)
    requires
        x.meet(offer_at(kind, base, to)) is Some,
        caps::fixed_caps(x.meet(offer_at(kind, base, to))->0) == Some(c),
    ensures
        crs_of(c) == to,
{
    let crs = match x {
        PatternModel::Raster(r) => r.crs,
        PatternModel::PointCloud(p) => p.crs,
        PatternModel::Vector(v) => v.crs,
        PatternModel::Tensor(t) => t.crs,
    };
    let one = FieldModel::OneOf(seq![to]);
    let got = crs.meet(one);
    assert(got.preferred() == Some(crs_of(c)));
    let l = got->OneOf_0;
    assert(l.contains(l[0]));
    caps::field_meet_allows(crs, one, crs_of(c));
    let z = seq![to].index_of(crs_of(c));
    assert(seq![to].contains(crs_of(c)));
    assert(seq![to][z] == crs_of(c));
}

/// A join of sources on one reference system, with adapters behind the
/// others, negotiates, and every input comes to it on that system.
pub proof fn an_adapted_join_solves(s: Shape, f: Family, to: Crs)
    requires
        f.wf(),
        joined_on(s, f, to),
    ensures
        s.problem().solution() matches Ok(fixed) && fixed.len() == s.parents.len() && (forall|k: int|
            0 <= k < f.size() ==> crs_of(
                fixed[(#[trigger] s.parents[f.size()][k]) as int],
            ) == to) && crs_of(fixed[f.size()]) == to,
{
    let pr = s.problem();
    let links = ends(s, f, to);
    let n = f.size();
    join_is_sound(s, f, to);
    sweeps_end(s, f, to);
    choice_is_consistent(s, f, to);
    solver::fixation_is_sound_and_complete(pr, links);
    let found = pr.fixation(links).0->0;
    assert(pr.consistent(links, found));
    let p = f.common(to);
    let joint = ranged(f.base, f.meet_of(to, n));
    common_is_fine(f, to, n);
    assert forall|i: int|
        0 <= i < found.len() && (i >= n || f.crss[i] == to) implies crs_of(
        (#[trigger] found[i])->0,
    ) == to by {
        let set = pr.choices(links, found, i as usize);
        let c = found[i]->0;
        assert(solver::distinct_caps(set).contains(c));
        let at = solver_laws::distinct_caps_come_from(set, c);
        offers_meet(f.kind, joint, to);
        if i < n {
            assert(s.parents[i].len() == 0);
            assert(set[at] == p);
            fixed_on(f.kind, joint, to, p, c);
        } else {
            if i > n {
                adapters_adapt(s, f, to, i);
            }
            let made = s.demands[i].outputs(
                seq![pr.fixed_input(found, s.parents[i], s.parents[i].len() as int)->0],
            );
            let x = meets_with_one(made, p, at);
            fixed_on(f.kind, joint, to, x, c);
        }
    }
    assert forall|k: int| 0 <= k < n implies crs_of(
        found[(#[trigger] s.parents[n][k]) as int]->0,
    ) == to by {
        assert(input_is_there(s, f, to, k));
    }
}

// Plugging.

/// Sources wired into a join that accepts any of their kind.
pub open spec fn source_join(f: Family) -> Shape {
    Shape {
        demands: Seq::new(
            f.crss.len(),
            |i: int| ConstraintModel::Produces(seq![f.offer(i)]),
        ).push(ConstraintModel::Identity(seq![any_of(f.kind)])),
        parents: Seq::new(f.crss.len(), |i: int| Seq::<usize>::empty()).push(
            Seq::new(f.crss.len(), |k: int| k as usize),
        ),
    }
}

/// The adapters that every graph starts with.
pub open spec fn standard_adapters() -> Seq<(AdapterKind, ConstraintModel)> {
    seq![
        (AdapterKind::Raster, elements::template_of(AdapterKind::Raster)),
        (AdapterKind::Vector, elements::template_of(AdapterKind::Vector)),
    ]
}

proof fn nothing_meets_nothing(xs: Seq<PatternModel>)
    ensures
        caps::set_meet(xs, Seq::empty()).len() == 0,
    decreases xs.len(),
{
    if xs.len() > 0 {
        nothing_meets_nothing(xs.drop_last());
    }
}

proof fn no_plug_for_nothing(offered: Seq<PatternModel>, a: int)
    requires
        0 <= a <= 2,
    ensures
        plug::plug_of(standard_adapters(), offered, Seq::empty(), a) is None,
    decreases 2 - a,
{
    if a < 2 {
        let template = standard_adapters()[a].1;
        nothing_meets_nothing(
            template.outputs(caps::set_meet(offered, template.accepts())),
        );
        no_plug_for_nothing(offered, a + 1);
    }
}

proof fn a_plug_is_found(kind: AdapterKind, base: RasterModel, y: ResRange, from: Crs, to: Crs)
    requires
        offers_something(base),
        plain(y),
        !y.empty(),
    ensures
        plug::plug_of(
            standard_adapters(),
            seq![offer_at(kind, base, from)],
            seq![offer_at(kind, ranged(base, y), to)],
            0,
        ) == Some((kind, to)),
{
    let p = offer_at(kind, base, from);
    let want = offer_at(kind, ranged(base, y), to);
    let x = any_of(kind);
    let all = standard_adapters();
    let mask = elements::content_passes();
    offers_meet(kind, base, from);
    offers_pass(kind, base, y, from, to);
    ones_meet(p, x);
    let out = adapter_output(kind, FieldModel::Any);
    let through = caps::projected(p, out, mask);
    ones_meet(through, want);
    let template = elements::template_of(kind);
    assert(template.outputs(seq![p]) =~= seq![through]);
    assert(plug::handed_on(template, seq![p], seq![want]) == seq![want]);
    assert(seq![want][0] == want);
    assert(seq![to][0] == to);
    assert(elements::target_of(kind, want) == Some(to));
    assert(plug::first_target(kind, seq![want], 0) == Some(to));
    match kind {
        AdapterKind::Raster => {
            assert(all[0] == (kind, template));
        },
        AdapterKind::Vector => {
            let other = elements::template_of(AdapterKind::Raster);
            assert(all[0] == (AdapterKind::Raster, other));
            assert(all[1] == (kind, template));
            let none = Seq::<PatternModel>::empty();
            ones_meet(p, any_of(AdapterKind::Raster));
            assert(caps::set_meet(seq![p], other.accepts()) == none);
            ones_meet(p, any_of(AdapterKind::Raster));
            assert(caps::set_meet(none, other.accepts()) == none);
            assert(other.outputs(none) =~= none);
            assert(caps::set_meet(none, seq![want]) == none);
            assert(plug::handed_on(other, seq![p], seq![want]) == none);
            assert(plug::first_target(AdapterKind::Raster, none, 0) is None);
            assert(plug::plug_of(all, seq![p], seq![want], 1) == Some((kind, to)));
        },
    }
}

/// All of the sources from the `a`-th on, before the `b`-th, are on one
/// reference system.
spec fn alike(f: Family, a: int, b: int, to: Crs) -> bool {
    forall|k: int| a <= k < b ==> #[trigger] f.crss[k] == to
}

/// The resolutions that some sources, from the `a`-th on, share.
spec fn shared_by(f: Family, a: int, k: int) -> ResRange
    decreases k - a,
{
    if k <= a + 1 {
        f.ranges[a]
    } else {
        shared_by(f, a, k - 1).meet(f.ranges[k - 1])
    }
}

proof fn shares_fit(f: Family, a: int, k: int)
    requires
        f.wf(),
        0 <= a < k <= f.size(),
    ensures
        fits(f, shared_by(f, a, k)),
        !shared_by(f, a, k).empty(),
    decreases k - a,
{
    assert(plain(f.ranges[a]) && f.ranges[a].holds(f.shared));
    ranges_meet(f.ranges[a], f.ranges[a], f.shared);
    if k > a + 1 {
        shares_fit(f, a, k - 1);
        assert(plain(f.ranges[k - 1]) && f.ranges[k - 1].holds(f.shared));
        ranges_meet(shared_by(f, a, k - 1), f.ranges[k - 1], f.shared);
    }
}

proof fn sources_offer(f: Family, links: Links, k: int)
    requires
        f.wf(),
        1 <= k <= f.size(),
        forall|i: int| 0 <= i < f.size() ==> #[trigger] links[i] == seq![f.offer(i)],
    ensures
        solver::offered(links, source_join(f).parents[f.size()], k) == (if alike(
            f,
            0,
            k,
            f.crss[0],
        ) {
            seq![f.with_range(shared_by(f, 0, k), f.crss[0])]
        } else {
            Seq::empty()
        }),
    decreases k,
{
    let parents = source_join(f).parents[f.size()];
    assert(parents[k - 1] == k - 1);
    assert(links[k - 1] == seq![f.offer(k - 1)]);
    if k > 1 {
        sources_offer(f, links, k - 1);
        shares_fit(f, 0, k - 1);
        assert(plain(f.ranges[k - 1]) && f.ranges[k - 1].holds(f.shared));
        let before = shared_by(f, 0, k - 1);
        offers_in_family(f, before, f.ranges[k - 1], f.crss[0], f.crss[k - 1]);
        ones_meet(f.offer(k - 1), f.offer(k - 1));
        if alike(f, 0, k, f.crss[0]) {
            assert(alike(f, 0, k - 1, f.crss[0]));
            assert(f.crss[k - 1] == f.crss[0]);
        } else if alike(f, 0, k - 1, f.crss[0]) {
            assert(f.crss[k - 1] != f.crss[0]);
        }
    }
}

proof fn siblings_ask(f: Family, links: Links, k: int)
    requires
        f.wf(),
        2 <= k <= f.size(),
        forall|i: int| 0 <= i < f.size() ==> #[trigger] links[i] == seq![f.offer(i)],
    ensures
        plug::asked(links, seq![any_of(f.kind)], source_join(f).parents[f.size()], 0, k) == (
        if alike(f, 1, k, f.crss[1]) {
            seq![f.with_range(shared_by(f, 1, k), f.crss[1])]
        } else {
            Seq::empty()
        }),
    decreases k,
{
    let parents = source_join(f).parents[f.size()];
    let x = any_of(f.kind);
    assert(parents[k - 1] == k - 1);
    assert(links[k - 1] == seq![f.offer(k - 1)]);
    assert(plain(f.ranges[k - 1]) && f.ranges[k - 1].holds(f.shared));
    let own = f.ranges[k - 1];
    if k == 2 {
        assert(parents[0] == 0);
        assert(plug::asked(links, seq![x], parents, 0, 0) == seq![x]);
        assert(plug::asked(links, seq![x], parents, 0, 1) == seq![x]);
        offers_in_family(f, own, own, f.crss[1], f.crss[1]);
    } else {
        siblings_ask(f, links, k - 1);
        shares_fit(f, 1, k - 1);
        offers_in_family(f, shared_by(f, 1, k - 1), own, f.crss[1], f.crss[k - 1]);
        ones_meet(f.offer(k - 1), f.offer(k - 1));
        if alike(f, 1, k, f.crss[1]) {
            assert(alike(f, 1, k - 1, f.crss[1]));
            assert(f.crss[k - 1] == f.crss[1]);
        } else if alike(f, 1, k - 1, f.crss[1]) {
            assert(f.crss[k - 1] != f.crss[1]);
        }
    }
}

proof fn source_join_is_sound(f: Family)
    requires
        f.wf(),
    ensures
        source_join(f).problem().wf(),
{
    let s = source_join(f);
    let rank = Seq::new(
        s.parents.len(),
        |i: int|
            if i < f.size() {
                0nat
            } else {
                1nat
            },
    );
    assert(graph::ranked(s.parents, rank));
    graph::walk_order_is_parents_first(s.parents);
}

/// The links when the first sweep over an unadapted join is at place `k`.
spec fn sources_to(f: Family, links: Links, k: int) -> bool {
    let order = source_join(f).problem().order;
    &&& links.len() == f.size() + 1
    &&& links[f.size()] == caps::any_model()
    &&& forall|i: int|
        0 <= i < f.size() ==> #[trigger] links[i] == caps::any_model() || links[i] == seq![
            f.offer(i),
        ]
    &&& forall|m: int|
        0 <= m < k && order[m] < f.size() ==> links[#[trigger] order[m] as int] == seq![
            f.offer(order[m] as int),
        ]
}

proof fn a_source_goes_on(f: Family, links: Links, k: int)
    requires
        f.wf(),
        sources_to(f, links, k),
        0 <= k < source_join(f).problem().order.len(),
        source_join(f).problem().order[k] < f.size(),
    ensures
        ({
            let s = source_join(f);
            let i = s.problem().order[k];
            let step = solver::forward_step(s.demands[i as int], s.parents[i as int], links, i);
            step matches Ok(link) && sources_to(f, links.update(i as int, link), k + 1)
        }),
{
    let s = source_join(f);
    let order = s.problem().order;
    let i = order[k];
    let own = f.offer(i as int);
    source_join_is_sound(f);
    let mine = f.ranges[i as int];
    assert(plain(mine) && mine.holds(f.shared));
    ranges_meet(mine, mine, f.shared);
    offers_in_family(f, mine, mine, f.crss[i as int], f.crss[i as int]);
    let step = solver::forward_step(s.demands[i as int], s.parents[i as int], links, i);
    assert(links[i as int] == caps::any_model() || links[i as int] == seq![own]);
    assert(step == Ok::<Seq<PatternModel>, Fault>(seq![own]));
    let next = links.update(i as int, seq![own]);
    assert forall|m: int| 0 <= m < k + 1 && order[m] < f.size() implies next[
    #[trigger] order[m] as int] == seq![f.offer(order[m] as int)] by {
        if m < k {
            assert(order[m] != order[k]);
        }
    }
    assert forall|j: int| 0 <= j < f.size() implies #[trigger] next[j] == caps::any_model()
        || next[j] == seq![f.offer(j)] by {
        assert(links[j] == caps::any_model() || links[j] == seq![f.offer(j)]);
    }
}

proof fn sources_are_placed(f: Family, links: Links, k: int)
    requires
        f.wf(),
        sources_to(f, links, k),
        0 <= k < source_join(f).problem().order.len(),
        source_join(f).problem().order[k] == f.size(),
    ensures
        forall|i: int| 0 <= i < f.size() ==> #[trigger] links[i] == seq![f.offer(i)],
{
    let s = source_join(f);
    let order = s.problem().order;
    source_join_is_sound(f);
    assert(graph::parents_in(s.parents, order.take(k), order[k] as int));
    assert forall|i: int| 0 <= i < f.size() implies #[trigger] links[i] == seq![f.offer(i)] by {
        assert(s.parents[f.size()][i] == i);
        assert(order.take(k).contains(i as usize));
        let m = order.take(k).index_of(i as usize);
        assert(order.take(k)[m] == i);
        assert(order[m] == i);
    }
}

/// The first sweep over a join of sources that disagree.
proof fn the_join_fails(f: Family, links: Links, k: int)
    requires
        f.wf(),
        !alike(f, 0, f.size(), f.crss[0]),
        sources_to(f, links, k),
        0 <= k < source_join(f).problem().order.len(),
        forall|m: int| 0 <= m < k ==> #[trigger] source_join(f).problem().order[m] != f.size(),
    ensures
        source_join(f).problem().forward(links, k) matches Err(
            Fault::EmptyLink { upstream, downstream, .. },
        ) && upstream == 0 && downstream == f.size(),
    decreases source_join(f).problem().order.len() - k,
{
    let s = source_join(f);
    let order = s.problem().order;
    let n = f.size();
    source_join_is_sound(f);
    let i = order[k];
    assert(order[k] < s.parents.len());
    if i == n {
        sources_are_placed(f, links, k);
        sources_offer(f, links, n);
        ones_meet(any_of(f.kind), any_of(f.kind));
        assert(s.parents[n][0] == 0);
        assert(s.demands[n].accepts() == seq![any_of(f.kind)]);
        assert(caps::set_meet(
            solver::offered(links, s.parents[n], n),
            s.demands[n].accepts(),
        ).len() == 0);
    } else {
        a_source_goes_on(f, links, k);
        let link = solver::forward_step(s.demands[i as int], s.parents[i as int], links, i)->Ok_0;
        let at = solver::place_of(s.problem(), n);
        assert(order[at] == n);
        if at <= k {
            assert(at < k || at == k);
        }
        assert(k + 1 < order.len());
        the_join_fails(f, links.update(i as int, link), k + 1);
    }
}

/// What the sources are seen to offer, whether the join fails or not.
proof fn sources_are_seen(f: Family, links: Links, k: int)
    requires
        f.wf(),
        !alike(f, 0, f.size(), f.crss[0]),
        sources_to(f, links, k),
        0 <= k <= source_join(f).problem().order.len(),
    ensures
        forall|i: int|
            0 <= i < f.size() ==> #[trigger] plug::offers(source_join(f).problem(), links, k)[i]
                == seq![f.offer(i)],
    decreases source_join(f).problem().order.len() - k,
{
    let s = source_join(f);
    let pr = s.problem();
    let order = pr.order;
    let n = f.size();
    source_join_is_sound(f);
    if k < order.len() {
        let i = order[k];
        assert(order[k] < s.parents.len());
        if i == n {
            sources_are_placed(f, links, k);
            sources_offer(f, links, n);
            ones_meet(any_of(f.kind), any_of(f.kind));
            assert(s.demands[n].accepts() == seq![any_of(f.kind)]);
            assert(caps::set_meet(
                solver::offered(links, s.parents[n], n),
                s.demands[n].accepts(),
            ).len() == 0);
            assert(solver::forward_step(s.demands[n], s.parents[n], links, i) is Err);
            assert(sources_to(f, links, k + 1));
            sources_are_seen(f, links, k + 1);
            assert(plug::offers(pr, links, k) == plug::offers(pr, links, k + 1));
        } else {
            a_source_goes_on(f, links, k);
            let link =
                solver::forward_step(s.demands[i as int], s.parents[i as int], links, i)->Ok_0;
            let next = links.update(i as int, link);
            sources_are_seen(f, next, k + 1);
            assert(plug::offers(pr, links, k) == plug::offers(pr, next, k + 1));
        }
    } else {
        assert forall|i: int| 0 <= i < n implies #[trigger] links[i] == seq![f.offer(i)] by {
            let m = solver::place_of(pr, i);
            assert(order[m] == i);
        }
        assert(plug::offers(pr, links, k) == links);
    }
}

/// The first `k` inputs of the join are brought onto a reference system,
/// the others come as they were wired.
spec fn joined_to(s: Shape, f: Family, to: Crs, k: int) -> bool {
    let n = f.size();
    &&& s.demands.len() == s.parents.len()
    &&& n < s.parents.len() <= n + 1 + k
    &&& forall|i: int|
        0 <= i < n ==> s.demands[i] == ConstraintModel::Produces(seq![#[trigger] f.offer(i)])
    &&& forall|i: int| 0 <= i < n ==> (#[trigger] s.parents[i]).len() == 0
    &&& s.demands[n] == ConstraintModel::Identity(seq![any_of(f.kind)])
    &&& s.parents[n].len() == n
    &&& forall|j: int| 0 <= j < k ==> #[trigger] input_is_there(s, f, to, j)
    &&& forall|j: int| k <= j < n ==> #[trigger] s.parents[n][j] == j
    &&& forall|a: int|
        n < a < s.parents.len() ==> #[trigger] s.demands[a] == plug::plugged_demand(f.kind, to)
    &&& forall|a: int| n < a < s.parents.len() ==> #[trigger] is_adapter(s, f, a)
}

proof fn one_more_adapter(s: Shape, f: Family, to: Crs, k: int)
    requires
        f.wf(),
        joined_to(s, f, to, k),
        0 <= k < f.size(),
        f.crss[k] != to,
    ensures
        joined_to(
            plug::with_adapter(s, k as usize, f.size() as usize, (f.kind, to)),
            f,
            to,
            k + 1,
        ),
{
    let n = f.size();
    let r = plug::with_adapter(s, k as usize, n as usize, (f.kind, to));
    let m = s.parents.len() as int;
    assert(r.parents[m] == seq![k as usize]);
    assert forall|i: int| 0 <= i < n implies (#[trigger] r.parents[i]).len() == 0 by {
        assert(s.parents[i].len() == 0);
    }
    assert forall|i: int| 0 <= i < n implies r.demands[i] == ConstraintModel::Produces(
        seq![#[trigger] f.offer(i)],
    ) by {
        assert(s.demands[i] == ConstraintModel::Produces(seq![f.offer(i)]));
    }
    assert(s.parents[n][k] == k);
    assert(r.parents[n][k] == m);
    assert forall|j: int| 0 <= j < n && j != k implies #[trigger] r.parents[n][j]
        == s.parents[n][j] by {
        if j < k {
            assert(input_is_there(s, f, to, j));
        } else {
            assert(s.parents[n][j] == j);
        }
    }
    assert forall|j: int| 0 <= j < k + 1 implies #[trigger] input_is_there(r, f, to, j) by {
        if j < k {
            assert(input_is_there(s, f, to, j));
            assert(r.parents[n][j] == s.parents[n][j]);
        }
    }
    assert forall|a: int| n < a < r.parents.len() implies #[trigger] is_adapter(r, f, a) by {
        if a < m {
            assert(is_adapter(s, f, a));
            let z = choose|z: int| #[trigger] adapts_one(s, f, a, z);
            assert(s.parents[n][z] == a);
            assert(z != k);
            assert(r.parents[n][z] == a);
            assert(adapts_one(r, f, a, z));
        } else {
            assert(adapts_one(r, f, a, k));
        }
    }
    assert forall|a: int| n < a < r.parents.len() implies #[trigger] r.demands[a]
        == plug::plugged_demand(f.kind, to) by {
        if a < m {
            assert(s.demands[a] == plug::plugged_demand(f.kind, to));
        }
    }
}

proof fn levelling_joins(s: Shape, f: Family, links: Links, k: int, most: nat)
    requires
        f.wf(),
        joined_to(s, f, f.crss[0], k),
        0 <= k <= f.size(),
        most >= f.size() - k,
        forall|i: int| 0 <= i < f.size() ==> #[trigger] links[i] == seq![f.offer(i)],
    ensures
        joined_on(
            plug::levelled(
                s,
                standard_adapters(),
                links,
                seq![f.offer(0)],
                f.size() + 1,
                f.size() as usize,
                k,
                f.size(),
                most,
            ),
            f,
            f.crss[0],
        ),
    decreases f.size() - k,
{
    let n = f.size();
    let to = f.crss[0];
    if k < n {
        let up = s.parents[n][k];
        assert(up == k);
        assert(links[k] == seq![f.offer(k)]);
        assert(plain(f.ranges[0]) && f.ranges[0].holds(f.shared));
        assert(plain(f.ranges[k]) && f.ranges[k].holds(f.shared));
        offers_in_family(f, f.ranges[0], f.ranges[k], to, f.crss[k]);
        offers_in_family(f, f.ranges[k], f.ranges[0], f.crss[k], to);
        ranges_meet(f.ranges[0], f.ranges[0], f.shared);
        if f.crss[k] == to {
            assert(input_is_there(s, f, to, k));
            levelling_joins(s, f, links, k + 1, most);
        } else {
            a_plug_is_found(
                f.kind,
                ranged(f.base, f.ranges[k]),
                f.ranges[0],
                f.crss[k],
                to,
            );
            one_more_adapter(s, f, to, k);
            levelling_joins(
                plug::with_adapter(s, up, n as usize, (f.kind, to)),
                f,
                links,
                k + 1,
                (most - 1) as nat,
            );
        }
    } else {
        assert(f.crss.contains(f.crss[0]));
    }
}

proof fn siblings_lead(f: Family, to: Crs)
    requires
        f.wf(),
        f.size() >= 2,
        alike(f, 1, f.size(), to),
        f.crss[0] != to,
    ensures
        joined_on(
            plug::with_adapter(source_join(f), 0, f.size() as usize, (f.kind, to)),
            f,
            to,
        ),
{
    let n = f.size();
    let s = source_join(f);
    let r = plug::with_adapter(s, 0, n as usize, (f.kind, to));
    assert(joined_to(s, f, to, 0));
    one_more_adapter(s, f, to, 0);
    assert forall|k: int| 0 <= k < n implies #[trigger] input_is_there(r, f, to, k) by {
        if k > 0 {
            assert(f.crss[k] == to);
            assert(r.parents[n][k] == k);
        }
    }
    assert(f.crss[1] == to);
    assert(f.crss.contains(to));
}

/// Every input of the join comes to it on one reference system.
pub open spec fn comes_on(s: Shape, f: Family, to: Crs) -> bool {
    s.problem().solution() matches Ok(fixed) && fixed.len() == s.parents.len() && (forall|k: int|
        0 <= k < f.size() ==> crs_of(fixed[(#[trigger] s.parents[f.size()][k]) as int]) == to)
        && crs_of(fixed[f.size()]) == to
}

/// Sources that are alike but for their reference systems, and share a
/// resolution, can be joined: with the adapters that every graph starts with, negotiation succeeds, all
/// inputs come to the join on one reference system, which is that of one of
/// the sources, and those that are on it come straight. Where all agree from
/// the start, the graph is left alone.
pub proof fn sources_join(f: Family, most: nat)
    requires
        f.wf(),
        most >= f.size(),
    ensures
        ({
            let s = source_join(f);
            let r = plug::plugged(s, standard_adapters(), f.size() + 1, most);
            &&& exists|to: Crs| #[trigger] joined_on(r, f, to) && comes_on(r, f, to)
            &&& (forall|k: int| 0 <= k < f.size() ==> #[trigger] f.crss[k] == f.crss[0]) ==> r == s
        }),
{
    let s = source_join(f);
    let n = f.size();
    let all = standard_adapters();
    let first = f.crss[0];
    let r = plug::plugged(s, all, n + 1, most);
    source_join_is_sound(f);
    if alike(f, 0, n, first) {
        assert forall|k: int| 0 <= k < n implies #[trigger] input_is_there(s, f, first, k) by {
            assert(f.crss[k] == first);
        }
        assert(f.crss.contains(first));
        assert(joined_on(s, f, first));
        an_adapted_join_solves(s, f, first);
        plug::an_agreeing_graph_is_left_alone(s, all, n + 1, most);
        assert(joined_on(r, f, first) && comes_on(r, f, first));
    } else {
        let pr = s.problem();
        let open = Seq::new(pr.size(), |i: int| caps::any_model());
        assert(sources_to(f, open, 0));
        the_join_fails(f, open, 0);
        assert(pr.sweep(open) is Err);
        assert(pr.negotiated() == Err::<Links, Fault>(pr.forward(open, 0)->Err_0));
        assert(s.parents[n][0] == 0);
        assert(s.parents[n].contains(0));
        assert(plug::failed_link(s, n + 1) == Some((0usize, n as usize)));
        sources_are_seen(f, open, 0);
        let links = plug::all_offers(pr);
        assert(links == plug::offers(pr, open, 0));
        let x = any_of(f.kind);
        assert(s.demands[n].accepts() == seq![x]);
        let next = plug::adapted(s, all, n + 1, 0, n as usize, most);
        if n == 1 {
            assert(alike(f, 0, n, first));
        }
        siblings_ask(f, links, n);
        let to = if alike(f, 1, n, f.crss[1]) {
            f.crss[1]
        } else {
            first
        };
        if alike(f, 1, n, f.crss[1]) {
            if f.crss[1] == first {
                assert forall|k: int| 0 <= k < n implies #[trigger] f.crss[k] == first by {
                    if k > 0 {
                        assert(f.crss[k] == f.crss[1]);
                    }
                }
            }
            shares_fit(f, 1, n);
            let mine = f.ranges[0];
            assert(plain(mine) && mine.holds(f.shared));
            offers_in_family(f, mine, mine, first, to);
            a_plug_is_found(f.kind, ranged(f.base, mine), shared_by(f, 1, n), first, to);
            siblings_lead(f, to);
            assert(next == plug::with_adapter(s, 0, n as usize, (f.kind, to)));
        } else {
            no_plug_for_nothing(links[0], 0);
            let mine = f.ranges[0];
            assert(plain(mine) && mine.holds(f.shared));
            offers_in_family(f, mine, mine, first, first);
            assert(plug::settled_on(links, seq![x], s.parents[n]) == seq![f.offer(0)]);
            assert(joined_to(s, f, first, 0));
            levelling_joins(s, f, links, 0, most);
            plug::levelling_appends(
                s,
                all,
                links,
                seq![f.offer(0)],
                n + 1,
                n as usize,
                0,
                n,
                most,
            );
            plug::levelling_nothing(
                s,
                all,
                links,
                seq![f.offer(0)],
                n + 1,
                n as usize,
                0,
                n,
                most,
            );
        }
        assert(joined_on(next, f, to));
        an_adapted_join_solves(next, f, to);
        assert(next != s);
        let added = next.demands.len() - s.demands.len();
        assert(0 < added <= most);
        plug::an_agreeing_graph_is_left_alone(next, all, n + 1, (most - added) as nat);
        assert(r == next);
        assert(joined_on(r, f, to) && comes_on(r, f, to));
    }
}

/// Raster sources with so many bands, each on a reference system and from a
/// resolution on.
pub open spec fn raster_family(bands: u16, crss: Seq<Crs>, finest: Seq<Real>) -> Family {
    Family {
        kind: AdapterKind::Raster,
        base: RasterModel {
            dtype: FieldModel::OneOf(seq![Dtype::F64]),
            bands: FieldModel::OneOf(seq![bands]),
            ..RasterModel::unbounded()
        },
        crss,
        ranges: Seq::new(
            crss.len(),
            |i: int| ResRange { min: finest[i], max: Real { bits: number::INFINITY_BITS } },
        ),
        shared: Real { bits: number::INFINITY_BITS },
    }
}

/// Raster sources of one band count on any reference systems, from any
/// resolutions on, can be mosaicked or combined: all of them come to the
/// join on one reference system, and those that are on it come straight.
pub proof fn raster_sources_join(bands: u16, crss: Seq<Crs>, finest: Seq<Real>, most: nat)
    requires
        0 < crss.len(),
        2 * crss.len() + 1 <= usize::MAX,
        finest.len() == crss.len(),
        forall|i: int|
            0 <= i < finest.len() ==> !(#[trigger] finest[i]).nan() && finest[i].bits
                < number::SIGN_BIT,
        most >= crss.len(),
    ensures
        ({
            let f = raster_family(bands, crss, finest);
            let s = source_join(f);
            let n = crss.len() as int;
            let r = plug::plugged(s, standard_adapters(), n + 1, most);
            &&& forall|i: int|
                0 <= i < n ==> #[trigger] s.demands[i] == elements::raster_offer(
                    bands,
                    crss[i],
                    finest[i],
                )
            &&& s.demands[n] == elements::any_raster_passes()
            &&& exists|to: Crs| #[trigger] joined_on(r, f, to) && comes_on(r, f, to)
        }),
{
    let f = raster_family(bands, crss, finest);
    let top = Real { bits: number::INFINITY_BITS };
    assert forall|k: int| 0 <= k < f.ranges.len() implies plain(#[trigger] f.ranges[k])
        && f.ranges[k].holds(f.shared) by {
        assert(!finest[k].nan() && finest[k].bits < number::SIGN_BIT);
        assert(top.place() == number::INFINITY_BITS);
    }
    assert(f.wf());
    sources_join(f, most);
    let s = source_join(f);
    assert forall|i: int| 0 <= i < crss.len() implies #[trigger] s.demands[i]
        == elements::raster_offer(bands, crss[i], finest[i]) by {
        assert(s.demands[i] == ConstraintModel::Produces(seq![f.offer(i)]));
    }
}

} // verus!
