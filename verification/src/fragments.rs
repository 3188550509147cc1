//! Fragments of features: in which order they stand after tiles were put
//! together, and how the fragments of one feature merge again.

use vstd::prelude::*;

use crate::chunk;
use crate::chunk::{
    Coord, FeatureGeometry, FeatureModel, GeometryModel, Polygon, PolygonModel, VectorFeature,
};
use crate::geometry;

verus! {

// Order.

/// Ids never fall.
pub open spec fn ordered(fs: Seq<FeatureModel>) -> bool {
    forall|i: int, j: int| 0 <= i <= j < fs.len() ==> (#[trigger] fs[i]).id <= (#[trigger] fs[j]).id
}

/// The features of one id, in order.
pub open spec fn with_id(fs: Seq<FeatureModel>, id: u64) -> Seq<FeatureModel> {
    fs.filter(|f: FeatureModel| f.id == id)
}

proof fn none_with_id(fs: Seq<FeatureModel>, id: u64)
    requires
        forall|i: int| 0 <= i < fs.len() ==> (#[trigger] fs[i]).id != id,
    ensures
        with_id(fs, id) == Seq::<FeatureModel>::empty(),
    decreases fs.len(),
{
    reveal(Seq::filter);
    if fs.len() > 0 {
        assert(fs[fs.len() - 1].id != id);
        assert forall|i: int| 0 <= i < fs.drop_last().len() implies (
        #[trigger] fs.drop_last()[i]).id != id by {
            assert(fs[i].id != id);
        }
        none_with_id(fs.drop_last(), id);
    }
}

proof fn one_with_id(f: FeatureModel, id: u64)
    ensures
        with_id(seq![f], id) == (if f.id == id {
            seq![f]
        } else {
            Seq::<FeatureModel>::empty()
        }),
{
    reveal(Seq::filter);
    let none = Seq::<FeatureModel>::empty();
    assert(seq![f].drop_last() =~= none);
    assert(with_id(none, id) =~= none);
    assert(Seq::<FeatureModel>::empty().push(f) =~= seq![f]);
}

/// A feature placed before the first that is not below it goes in front of
/// its equals.
proof fn placed_in_front(fs: Seq<FeatureModel>, at: int, f: FeatureModel)
    requires
        ordered(fs),
        0 <= at <= fs.len(),
        forall|i: int| 0 <= i < at ==> (#[trigger] fs[i]).id < f.id,
        at < fs.len() ==> f.id <= fs[at].id,
    ensures
        ordered(fs.insert(at, f)),
        forall|id: u64|
            #[trigger] with_id(fs.insert(at, f), id) == with_id(seq![f], id) + with_id(fs, id),
{
    let low = fs.take(at);
    let high = fs.skip(at);
    let all = fs.insert(at, f);
    assert(all =~= low + (seq![f] + high));
    assert(fs =~= low + high);
    assert forall|i: int, j: int| 0 <= i <= j < all.len() implies (#[trigger] all[i]).id <= (
    #[trigger] all[j]).id by {
        let x = if i < at {
            i
        } else {
            i - 1
        };
        let y = if j < at {
            j
        } else {
            j - 1
        };
        if i != at && j != at {
            assert(all[i] == fs[x] && all[j] == fs[y]);
        } else if i == at && j > at {
            assert(all[j] == fs[y]);
            assert(fs[at].id <= fs[y].id);
        } else if j == at && i < at {
            assert(all[i] == fs[i]);
        }
    }
    assert forall|id: u64| #[trigger] with_id(all, id) == with_id(seq![f], id) + with_id(
        fs,
        id,
    ) by {
        let pred = |g: FeatureModel| g.id == id;
        Seq::filter_distributes_over_add(low, seq![f] + high, pred);
        Seq::filter_distributes_over_add(seq![f], high, pred);
        Seq::filter_distributes_over_add(low, high, pred);
        one_with_id(f, id);
        if id == f.id {
            assert forall|i: int| 0 <= i < low.len() implies (#[trigger] low[i]).id != id by {
                assert(fs[i].id < f.id);
            }
            none_with_id(low, id);
            assert(Seq::<FeatureModel>::empty() + (seq![f] + with_id(high, id)) =~= seq![f] + (
            Seq::<FeatureModel>::empty() + with_id(high, id)));
        } else {
            assert(with_id(low, id) + (Seq::<FeatureModel>::empty() + with_id(high, id))
                =~= Seq::<FeatureModel>::empty() + (with_id(low, id) + with_id(high, id)));
        }
    }
}

/// Features by id; those of one id keep their order.
pub fn sort_by_id(features: Vec<VectorFeature>) -> (r: Vec<VectorFeature>)
    ensures
        ordered(chunk::features_model(r@)),
        r@.len() == features@.len(),
        forall|id: u64|
            #[trigger] with_id(chunk::features_model(r@), id) == with_id(
                chunk::features_model(features@),
                id,
            ),
{
    let ghost model = chunk::features_model(features@);
    let ghost n = features@.len() as int;
    let mut rest = features;
    let mut out: Vec<VectorFeature> = Vec::new();
    assert(chunk::features_model(out@) =~= model.skip(n));
    assert(chunk::features_model(rest@) =~= model.take(n));
    while rest.len() > 0
        invariant
            n == model.len(),
            rest@.len() <= n,
            out@.len() + rest@.len() == n,
            chunk::features_model(rest@) == model.take(rest@.len() as int),
            ordered(chunk::features_model(out@)),
            forall|id: u64|
                #[trigger] with_id(chunk::features_model(out@), id) == with_id(
                    model.skip(rest@.len() as int),
                    id,
                ),
        decreases rest@.len(),
    {
        let ghost before = chunk::features_model(out@);
        let ghost k = rest@.len() as int;
        let ghost last = chunk::features_model(rest@)[k - 1];
        let f = match rest.pop() {
            Some(f) => f,
            None => {
                return out;
            },
        };
        let mut at: usize = 0;
        while at < out.len() && out[at].id < f.id
            invariant
                at <= out@.len(),
                before == chunk::features_model(out@),
                forall|i: int| 0 <= i < at ==> (#[trigger] before[i]).id < f.id,
            decreases out@.len() - at,
        {
            assert(before[at as int].id == out@[at as int].id);
            at = at + 1;
        }
        proof {
            assert(f@ == last);
            if at < out@.len() {
                assert(before[at as int].id == out@[at as int].id);
            }
            placed_in_front(before, at as int, f@);
        }
        out.insert(at, f);
        proof {
            assert(chunk::features_model(out@) =~= before.insert(at as int, last));
            assert(chunk::features_model(rest@) =~= model.take(k - 1));
            let tail = model.skip(k - 1);
            assert(tail =~= seq![last] + model.skip(k));
            assert forall|id: u64| #[trigger] with_id(
                chunk::features_model(out@),
                id,
            ) == with_id(tail, id) by {
                Seq::filter_distributes_over_add(
                    seq![last],
                    model.skip(k),
                    |g: FeatureModel| g.id == id,
                );
                assert(with_id(before, id) == with_id(model.skip(k), id));
            }
        }
    }
    assert(model.skip(0) =~= model);
    out
}

// Ids.

/// The ids of features.
pub open spec fn ids_of(fs: Seq<VectorFeature>) -> Seq<u64> {
    Seq::new(fs.len(), |i: int| fs[i].id)
}

/// Numbers that grow strictly.
pub open spec fn rising(ids: Seq<u64>) -> bool {
    forall|i: int, j: int| 0 <= i < j < ids.len() ==> #[trigger] ids[i] < #[trigger] ids[j]
}

/// The ids that occur, each once, rising.
pub fn distinct_ids(features: &Vec<VectorFeature>) -> (r: Vec<u64>)
    ensures
        rising(r@),
        forall|id: u64| #[trigger] r@.contains(id) <==> ids_of(features@).contains(id),
{
    let ghost ids = ids_of(features@);
    let mut r: Vec<u64> = Vec::new();
    for i in 0..features.len()
        invariant
            ids == ids_of(features@),
            rising(r@),
            forall|id: u64| r@.contains(id) <==> ids.take(i as int).contains(id),
    {
        let id: u64 = features[i].id;
        let ghost before = r@;
        let mut at: usize = 0;
        while at < r.len() && r[at] < id
            invariant
                at <= r@.len(),
                r@ == before,
                forall|k: int| 0 <= k < at ==> before[k] < id,
            decreases r@.len() - at,
        {
            at = at + 1;
        }
        if at == r.len() || r[at] != id {
            r.insert(at, id);
            assert(r@ =~= before.insert(at as int, id));
        }
        proof {
            let next = ids.take(i as int + 1);
            assert(next =~= ids.take(i as int).push(id));
            if r@ == before {
                assert(before[at as int] == id);
            } else {
                assert(r@[at as int] == id);
            }
            assert forall|x: u64| r@.contains(x) <==> next.contains(x) by {
                if r@.contains(x) && x != id {
                    let k = choose|k: int| 0 <= k < r@.len() && r@[k] == x;
                    if r@ != before {
                        if k < at {
                            assert(before[k] == x);
                        } else {
                            assert(before[k - 1] == x);
                        }
                    }
                    assert(before.contains(x));
                    assert(ids.take(i as int).contains(x));
                    let j = choose|j: int|
                        0 <= j < ids.take(i as int).len() && ids.take(i as int)[j] == x;
                    assert(next[j] == x);
                }
                if x == id {
                    assert(next[i as int] == id);
                    assert(r@.contains(id));
                }
                if next.contains(x) && x != id {
                    let j = choose|j: int| 0 <= j < next.len() && next[j] == x;
                    assert(ids.take(i as int)[j] == x);
                    assert(before.contains(x));
                    let k = choose|k: int| 0 <= k < before.len() && before[k] == x;
                    if r@ != before {
                        if k < at {
                            assert(r@[k] == x);
                        } else {
                            assert(r@[k + 1] == x);
                        }
                    }
                }
            }
            assert(rising(r@)) by {
                assert forall|a: int, b: int| 0 <= a < b < r@.len() implies #[trigger] r@[a]
                    < #[trigger] r@[b] by {
                    if r@ != before {
                        let x = if a < at {
                            a
                        } else {
                            a - 1
                        };
                        let y = if b < at {
                            b
                        } else {
                            b - 1
                        };
                        if a != at && b != at {
                            assert(before[x] < before[y]);
                        } else if a == at {
                            assert(before[at as int] <= before[y]);
                        }
                    }
                }
            }
        }
    }
    assert(ids.take(ids.len() as int) =~= ids);
    r
}

// Merging.

/// The classes of geometry that merge with each other.
#[derive(Clone, Copy, Debug, PartialEq, Eq, Structural)]
pub enum Class {
    Point,
    Line,
    Polygon,
    Collection,
}

pub open spec fn class_of(g: GeometryModel) -> Class {
    match g {
        GeometryModel::Point(_) => Class::Point,
        GeometryModel::MultiPoint(_) => Class::Point,
        GeometryModel::LineString(_) => Class::Line,
        GeometryModel::MultiLineString(_) => Class::Line,
        GeometryModel::Polygon(_) => Class::Polygon,
        GeometryModel::MultiPolygon(_) => Class::Polygon,
        GeometryModel::GeometryCollection(_) => Class::Collection,
    }
}

/// The class of a geometry.
pub fn class(g: &FeatureGeometry) -> (r: Class)
    ensures
        r == class_of(g@),
{
    match g {
        FeatureGeometry::Point(_) => Class::Point,
        FeatureGeometry::MultiPoint(_) => Class::Point,
        FeatureGeometry::LineString(_) => Class::Line,
        FeatureGeometry::MultiLineString(_) => Class::Line,
        FeatureGeometry::Polygon(_) => Class::Polygon,
        FeatureGeometry::MultiPolygon(_) => Class::Polygon,
        FeatureGeometry::GeometryCollection(_) => Class::Collection,
    }
}

/// The points of the point fragments.
pub open spec fn points_of(parts: Seq<GeometryModel>) -> Seq<Coord>
    decreases parts.len(),
{
    if parts.len() == 0 {
        Seq::empty()
    } else {
        points_of(parts.drop_last()) + (match parts.last() {
            GeometryModel::Point(c) => seq![c],
            GeometryModel::MultiPoint(cs) => cs,
            _ => Seq::empty(),
        })
    }
}

/// The lines of the line fragments.
pub open spec fn lines_of(parts: Seq<GeometryModel>) -> Seq<Seq<Coord>>
    decreases parts.len(),
{
    if parts.len() == 0 {
        Seq::empty()
    } else {
        lines_of(parts.drop_last()) + (match parts.last() {
            GeometryModel::LineString(cs) => seq![cs],
            GeometryModel::MultiLineString(ls) => ls,
            _ => Seq::empty(),
        })
    }
}

/// One point is a point, several are a multi point, none is nothing.
pub open spec fn as_points(cs: Seq<Coord>) -> Option<GeometryModel> {
    if cs.len() == 0 {
        None
    } else if cs.len() == 1 {
        Some(GeometryModel::Point(cs[0]))
    } else {
        Some(GeometryModel::MultiPoint(cs))
    }
}

pub open spec fn as_lines(ls: Seq<Seq<Coord>>) -> Option<GeometryModel> {
    if ls.len() == 0 {
        None
    } else if ls.len() == 1 {
        Some(GeometryModel::LineString(ls[0]))
    } else {
        Some(GeometryModel::MultiLineString(ls))
    }
}

pub open spec fn as_polygons(ps: Seq<PolygonModel>) -> Option<GeometryModel> {
    if ps.len() == 0 {
        None
    } else if ps.len() == 1 {
        Some(GeometryModel::Polygon(ps[0]))
    } else {
        Some(GeometryModel::MultiPolygon(ps))
    }
}

/// What a list of borrowed geometries is.
pub open spec fn parts_model(parts: Seq<&FeatureGeometry>) -> Seq<GeometryModel> {
    Seq::new(parts.len(), |i: int| parts[i]@)
}

/// A result is the geometry that a model names, or nothing.
pub open spec fn same_geometry(r: Option<FeatureGeometry>, m: Option<GeometryModel>) -> bool {
    match m {
        Some(g) => r matches Some(x) && x@ == g,
        None => r is None,
    }
}

/// Point fragments joined. Each point belongs to one tile, so nothing is
/// there twice.
pub fn merge_puntal(parts: &Vec<&FeatureGeometry>) -> (r: Option<FeatureGeometry>)
    ensures
        same_geometry(r, as_points(points_of(parts_model(parts@)))),
{
    let ghost model = parts_model(parts@);
    let mut points: Vec<Coord> = Vec::new();
    for i in 0..parts.len()
        invariant
            model == parts_model(parts@),
            points@ == points_of(model.take(i as int)),
    {
        let ghost before = points@;
        assert(model.take(i as int + 1).drop_last() =~= model.take(i as int));
        match parts[i] {
            FeatureGeometry::Point(_) => {
                geometry::collect_coords(parts[i], &mut points);
            },
            FeatureGeometry::MultiPoint(_) => {
                geometry::collect_coords(parts[i], &mut points);
            },
            _ => {
                assert(before + Seq::<Coord>::empty() =~= before);
            },
        }
    }
    assert(model.take(model.len() as int) =~= model);
    if points.len() == 0 {
        None
    } else if points.len() == 1 {
        Some(FeatureGeometry::Point(points[0]))
    } else {
        Some(FeatureGeometry::MultiPoint(points))
    }
}

/// The lines of the line fragments, to be joined end to end.
pub fn line_pieces(parts: &Vec<&FeatureGeometry>) -> (r: Vec<Vec<Coord>>)
    ensures
        chunk::lines_model(r@) == lines_of(parts_model(parts@)),
{
    let ghost model = parts_model(parts@);
    let mut lines: Vec<Vec<Coord>> = Vec::new();
    assert(chunk::lines_model(lines@) =~= lines_of(model.take(0)));
    for i in 0..parts.len()
        invariant
            model == parts_model(parts@),
            chunk::lines_model(lines@) == lines_of(model.take(i as int)),
    {
        let ghost before = chunk::lines_model(lines@);
        assert(model.take(i as int + 1).drop_last() =~= model.take(i as int));
        match parts[i] {
            FeatureGeometry::LineString(_) => {
                geometry::collect_cuts(parts[i], &mut lines);
            },
            FeatureGeometry::MultiLineString(_) => {
                geometry::collect_cuts(parts[i], &mut lines);
            },
            _ => {
                assert(before + Seq::<Seq<Coord>>::empty() =~= before);
            },
        }
    }
    assert(model.take(model.len() as int) =~= model);
    lines
}

/// The geometry of merged polygons.
pub fn merge_polygonal(merged: Vec<Polygon>) -> (r: Option<FeatureGeometry>)
    ensures
        same_geometry(r, as_polygons(chunk::polygons_model(merged@))),
{
    let mut merged = merged;
    if merged.len() == 0 {
        None
    } else if merged.len() == 1 {
        match merged.pop() {
            Some(p) => Some(FeatureGeometry::Polygon(p)),
            None => None,
        }
    } else {
        Some(FeatureGeometry::MultiPolygon(merged))
    }
}

/// The geometry of joined lines.
pub fn merge_lineal(joined: Vec<Vec<Coord>>) -> (r: Option<FeatureGeometry>)
    ensures
        same_geometry(r, as_lines(chunk::lines_model(joined@))),
{
    let mut joined = joined;
    if joined.len() == 0 {
        None
    } else if joined.len() == 1 {
        match joined.pop() {
            Some(l) => Some(FeatureGeometry::LineString(l)),
            None => None,
        }
    } else {
        Some(FeatureGeometry::MultiLineString(joined))
    }
}

// Joining lines.

/// Whether the end of one piece meets the start of another: a square table.
pub open spec fn joins(meets: Seq<Seq<bool>>, a: usize, b: usize) -> bool {
    meets[a as int][b as int]
}

/// The first place from `from` on whose piece starts where a piece ends.
pub open spec fn next_place(meets: Seq<Seq<bool>>, pending: Seq<usize>, end: usize, from: int) -> int
    decreases pending.len() - from,
{
    if from >= pending.len() || joins(meets, end, pending[from]) {
        from
    } else {
        next_place(meets, pending, end, from + 1)
    }
}

/// The first place from `from` on whose piece ends where a piece starts.
pub open spec fn prior_place(
    meets: Seq<Seq<bool>>,
    pending: Seq<usize>,
    start: usize,
    from: int,
) -> int
    decreases pending.len() - from,
{
    if from >= pending.len() || joins(meets, pending[from], start) {
        from
    } else {
        prior_place(meets, pending, start, from + 1)
    }
}

/// A chain of pieces grown as far as others meet it, behind first, and the
/// pieces that are left.
pub open spec fn grown(
    meets: Seq<Seq<bool>>,
    chain: Seq<usize>,
    pending: Seq<usize>,
) -> (Seq<usize>, Seq<usize>)
    decreases pending.len(),
{
    let k = next_place(meets, pending, chain.last(), 0);
    let j = prior_place(meets, pending, chain[0], 0);
    if 0 <= k < pending.len() {
        grown(meets, chain.push(pending[k]), pending.remove(k))
    } else if 0 <= j < pending.len() {
        grown(meets, seq![pending[j]] + chain, pending.remove(j))
    } else {
        (chain, pending)
    }
}

/// All chains, each started with the first piece that is left.
pub open spec fn chains(meets: Seq<Seq<bool>>, pending: Seq<usize>) -> Seq<Seq<usize>>
    decreases pending.len(),
    via chains_shrink
{
    if pending.len() == 0 {
        Seq::empty()
    } else {
        let (chain, rest) = grown(meets, seq![pending[0]], pending.drop_first());
        seq![chain] + chains(meets, rest)
    }
}

#[via_fn]
proof fn chains_shrink(meets: Seq<Seq<bool>>, pending: Seq<usize>) {
    if pending.len() > 0 {
        growing_shrinks(meets, seq![pending[0]], pending.drop_first());
    }
}

proof fn growing_shrinks(meets: Seq<Seq<bool>>, chain: Seq<usize>, pending: Seq<usize>)
    ensures
        grown(meets, chain, pending).1.len() <= pending.len(),
    decreases pending.len(),
{
    let k = next_place(meets, pending, chain.last(), 0);
    let j = prior_place(meets, pending, chain[0], 0);
    if 0 <= k < pending.len() {
        growing_shrinks(meets, chain.push(pending[k]), pending.remove(k));
    } else if 0 <= j < pending.len() {
        growing_shrinks(meets, seq![pending[j]] + chain, pending.remove(j));
    }
}

/// A piece meets the next, all along a chain.
pub open spec fn linked(meets: Seq<Seq<bool>>, chain: Seq<usize>) -> bool {
    forall|i: int| 0 <= i < chain.len() - 1 ==> joins(meets, #[trigger] chain[i], chain[i + 1])
}

proof fn next_place_joins(meets: Seq<Seq<bool>>, pending: Seq<usize>, end: usize, from: int)
    requires
        0 <= from,
    ensures
        from <= next_place(meets, pending, end, from),
        next_place(meets, pending, end, from) < pending.len() ==> joins(
            meets,
            end,
            pending[next_place(meets, pending, end, from)],
        ),
    decreases pending.len() - from,
{
    if from < pending.len() && !joins(meets, end, pending[from]) {
        next_place_joins(meets, pending, end, from + 1);
    }
}

proof fn prior_place_joins(meets: Seq<Seq<bool>>, pending: Seq<usize>, start: usize, from: int)
    requires
        0 <= from,
    ensures
        from <= prior_place(meets, pending, start, from),
        prior_place(meets, pending, start, from) < pending.len() ==> joins(
            meets,
            pending[prior_place(meets, pending, start, from)],
            start,
        ),
    decreases pending.len() - from,
{
    if from < pending.len() && !joins(meets, pending[from], start) {
        prior_place_joins(meets, pending, start, from + 1);
    }
}

proof fn removal_keeps_the_rest(pending: Seq<usize>, k: int)
    requires
        0 <= k < pending.len(),
    ensures
        pending.to_multiset() == pending.remove(k).to_multiset().insert(pending[k]),
{
    broadcast use vstd::seq_lib::group_to_multiset_ensures;

    let rest = pending.remove(k);
    assert(pending =~= rest.insert(k, pending[k]));
    assert(rest.insert(k, pending[k]).to_multiset() =~= rest.to_multiset().insert(pending[k]));
}

proof fn front_counts(x: usize, s: Seq<usize>)
    ensures
        (seq![x] + s).to_multiset() == s.to_multiset().insert(x),
{
    broadcast use vstd::seq_lib::group_to_multiset_ensures;

    assert(seq![x] + s =~= s.insert(0, x));
}

/// Growing a chain loses and invents nothing, and every piece of the chain
/// meets the next.
proof fn growing_keeps(meets: Seq<Seq<bool>>, chain: Seq<usize>, pending: Seq<usize>)
    requires
        chain.len() > 0,
        linked(meets, chain),
    ensures
        linked(meets, grown(meets, chain, pending).0),
        grown(meets, chain, pending).0.to_multiset().add(
            grown(meets, chain, pending).1.to_multiset(),
        ) == chain.to_multiset().add(pending.to_multiset()),
    decreases pending.len(),
{
    broadcast use vstd::seq_lib::group_to_multiset_ensures;

    let k = next_place(meets, pending, chain.last(), 0);
    let j = prior_place(meets, pending, chain[0], 0);
    next_place_joins(meets, pending, chain.last(), 0);
    prior_place_joins(meets, pending, chain[0], 0);
    if 0 <= k < pending.len() {
        let longer = chain.push(pending[k]);
        assert(linked(meets, longer)) by {
            assert forall|i: int| 0 <= i < longer.len() - 1 implies joins(
                meets,
                #[trigger] longer[i],
                longer[i + 1],
            ) by {
                if i < chain.len() - 1 {
                    assert(joins(meets, chain[i], chain[i + 1]));
                }
            }
        }
        growing_keeps(meets, longer, pending.remove(k));
        removal_keeps_the_rest(pending, k);
        assert(longer.to_multiset().add(pending.remove(k).to_multiset())
            =~= chain.to_multiset().add(pending.to_multiset()));
    } else if 0 <= j < pending.len() {
        let longer = seq![pending[j]] + chain;
        assert(linked(meets, longer)) by {
            assert forall|i: int| 0 <= i < longer.len() - 1 implies joins(
                meets,
                #[trigger] longer[i],
                longer[i + 1],
            ) by {
                if i > 0 {
                    assert(joins(meets, chain[i - 1], chain[i]));
                }
            }
        }
        growing_keeps(meets, longer, pending.remove(j));
        removal_keeps_the_rest(pending, j);
        front_counts(pending[j], chain);
        assert(longer.to_multiset().add(pending.remove(j).to_multiset())
            =~= chain.to_multiset().add(pending.to_multiset()));
    }
}

/// The pieces of all chains.
pub open spec fn pieces_in(cs: Seq<Seq<usize>>) -> vstd::multiset::Multiset<usize>
    decreases cs.len(),
{
    if cs.len() == 0 {
        vstd::multiset::Multiset::empty()
    } else {
        cs[0].to_multiset().add(pieces_in(cs.drop_first()))
    }
}

/// Joining loses no piece, uses none twice, and only joins what meets.
pub proof fn joining_keeps_every_piece(meets: Seq<Seq<bool>>, pending: Seq<usize>)
    ensures
        pieces_in(chains(meets, pending)) == pending.to_multiset(),
        forall|i: int|
            0 <= i < chains(meets, pending).len() ==> linked(
                meets,
                #[trigger] chains(meets, pending)[i],
            ),
    decreases pending.len(),
{
    broadcast use vstd::seq_lib::group_to_multiset_ensures;

    if pending.len() > 0 {
        let first = seq![pending[0]];
        let (chain, rest) = grown(meets, first, pending.drop_first());
        growing_keeps(meets, first, pending.drop_first());
        growing_shrinks(meets, first, pending.drop_first());
        joining_keeps_every_piece(meets, rest);
        let all = seq![chain] + chains(meets, rest);
        assert(all.drop_first() =~= chains(meets, rest));
        front_counts(pending[0], pending.drop_first());
        assert(seq![pending[0]] + pending.drop_first() =~= pending);
        assert(first =~= Seq::<usize>::empty().push(pending[0]));
        assert(first.to_multiset().add(pending.drop_first().to_multiset())
            =~= pending.to_multiset());
        assert forall|i: int| 0 <= i < all.len() implies linked(meets, #[trigger] all[i]) by {
            if i > 0 {
                assert(all[i] == chains(meets, rest)[i - 1]);
            }
        }
    } else {
        assert(pending.to_multiset() =~= vstd::multiset::Multiset::empty());
    }
}

/// The pieces of a chain as one line: each piece behind the first without
/// its first coordinate.
pub open spec fn chained(pieces: Seq<Seq<Coord>>, chain: Seq<usize>) -> Seq<Coord>
    decreases chain.len(),
{
    if chain.len() == 0 {
        Seq::empty()
    } else if chain.len() == 1 {
        pieces[chain[0] as int]
    } else {
        chained(pieces, chain.drop_last()) + pieces[chain.last() as int].drop_first()
    }
}

/// The places are those of pieces.
pub open spec fn in_range(s: Seq<usize>, n: int) -> bool {
    forall|i: int| 0 <= i < s.len() ==> #[trigger] s[i] < n
}

/// The table has a row and a column per piece.
pub open spec fn square(meets: Seq<Vec<bool>>, n: int) -> bool {
    meets.len() == n && forall|i: int| 0 <= i < n ==> (#[trigger] meets[i])@.len() == n
}

pub open spec fn table_model(meets: Seq<Vec<bool>>) -> Seq<Seq<bool>> {
    Seq::new(meets.len(), |i: int| meets[i]@)
}

fn grow(meets: &Vec<Vec<bool>>, pending: &mut Vec<usize>, first: usize) -> (r: Vec<usize>)
    requires
        square(meets@, meets@.len() as int),
        in_range(old(pending)@, meets@.len() as int),
        first < meets@.len(),
    ensures
        (r@, final(pending)@) == grown(table_model(meets@), seq![first], old(pending)@),
        in_range(r@, meets@.len() as int),
        in_range(final(pending)@, meets@.len() as int),
        r@.len() > 0,
{
    let ghost table = table_model(meets@);
    let ghost whole = grown(table, seq![first], pending@);
    let mut chain: Vec<usize> = Vec::new();
    chain.push(first);
    assert(chain@ =~= seq![first]);
    loop
        invariant
            table == table_model(meets@),
            square(meets@, meets@.len() as int),
            in_range(pending@, meets@.len() as int),
            in_range(chain@, meets@.len() as int),
            chain@.len() > 0,
            whole == grown(table, chain@, pending@),
        ensures
            in_range(pending@, meets@.len() as int),
            in_range(chain@, meets@.len() as int),
            chain@.len() > 0,
            whole == (chain@, pending@),
        decreases pending@.len(),
    {
        let last: usize = chain[chain.len() - 1];
        let start: usize = chain[0];
        let ghost now = pending@;
        let ghost so_far = chain@;
        let mut k: usize = 0;
        while k < pending.len() && !meets[last][pending[k]]
            invariant
                k <= pending@.len(),
                pending@ == now,
                table == table_model(meets@),
                square(meets@, meets@.len() as int),
                in_range(pending@, meets@.len() as int),
                last < meets@.len(),
                next_place(table, now, last, 0) == next_place(table, now, last, k as int),
            decreases pending@.len() - k,
        {
            k = k + 1;
        }
        if k < pending.len() {
            let p: usize = pending.remove(k);
            chain.push(p);
            continue ;
        }
        let mut j: usize = 0;
        while j < pending.len() && !meets[pending[j]][start]
            invariant
                j <= pending@.len(),
                pending@ == now,
                table == table_model(meets@),
                square(meets@, meets@.len() as int),
                in_range(pending@, meets@.len() as int),
                start < meets@.len(),
                prior_place(table, now, start, 0) == prior_place(table, now, start, j as int),
            decreases pending@.len() - j,
        {
            j = j + 1;
        }
        if j < pending.len() {
            let p: usize = pending.remove(j);
            chain.insert(0, p);
            assert(chain@ =~= seq![p] + so_far);
            continue ;
        }
        break;
    }
    chain
}

/// The chains in which pieces are joined, given which ends meet which
/// starts.
pub fn stitch(meets: &Vec<Vec<bool>>) -> (r: Vec<Vec<usize>>)
    requires
        square(meets@, meets@.len() as int),
    ensures
        Seq::new(r@.len(), |i: int| r@[i]@) == chains(
            table_model(meets@),
            Seq::new(meets@.len(), |i: int| i as usize),
        ),
        forall|i: int|
            0 <= i < r@.len() ==> in_range((#[trigger] r@[i])@, meets@.len() as int)
                && r@[i]@.len() > 0,
{
    let ghost table = table_model(meets@);
    let n: usize = meets.len();
    let mut pending: Vec<usize> = Vec::new();
    for i in 0..n
        invariant
            pending@ == Seq::new(i as nat, |k: int| k as usize),
    {
        pending.push(i);
        assert(pending@ =~= Seq::new((i + 1) as nat, |k: int| k as usize));
    }
    let ghost whole = chains(table, pending@);
    let mut r: Vec<Vec<usize>> = Vec::new();
    assert(Seq::new(r@.len(), |i: int| r@[i]@) + whole =~= whole);
    while pending.len() > 0
        invariant
            table == table_model(meets@),
            n == meets@.len(),
            square(meets@, n as int),
            in_range(pending@, n as int),
            whole == Seq::new(r@.len(), |i: int| r@[i]@) + chains(table, pending@),
            forall|i: int|
                0 <= i < r@.len() ==> in_range((#[trigger] r@[i])@, n as int) && r@[i]@.len() > 0,
        decreases pending@.len(),
    {
        let ghost before = pending@;
        let ghost done = Seq::new(r@.len(), |i: int| r@[i]@);
        let first: usize = pending.remove(0);
        assert(pending@ =~= before.drop_first());
        let chain = grow(meets, &mut pending, first);
        proof {
            growing_shrinks(table, seq![first], before.drop_first());
        }
        let ghost one = chain@;
        r.push(chain);
        proof {
            let now = Seq::new(r@.len(), |i: int| r@[i]@);
            assert(now =~= done.push(one));
            assert(now + chains(table, pending@) =~= done + (seq![one] + chains(
                table,
                pending@,
            )));
        }
    }
    proof {
        let now = Seq::new(r@.len(), |i: int| r@[i]@);
        assert(now + Seq::<Seq<usize>>::empty() =~= now);
    }
    r
}

/// The pieces of a chain as one line.
pub fn join_chain(pieces: &Vec<Vec<Coord>>, chain: &Vec<usize>) -> (r: Vec<Coord>)
    requires
        in_range(chain@, pieces@.len() as int),
        forall|i: int| 1 <= i < chain@.len() ==> pieces@[#[trigger] chain@[i] as int]@.len() > 0,
    ensures
        r@ == chained(chunk::lines_model(pieces@), chain@),
{
    let ghost model = chunk::lines_model(pieces@);
    let mut r: Vec<Coord> = Vec::new();
    for i in 0..chain.len()
        invariant
            model == chunk::lines_model(pieces@),
            in_range(chain@, pieces@.len() as int),
            forall|k: int| 1 <= k < chain@.len() ==> pieces@[#[trigger] chain@[k] as int]@.len() > 0,
            r@ == chained(model, chain@.take(i as int)),
    {
        let p = &pieces[chain[i]];
        let ghost start = r@;
        let first: usize = if i == 0 {
            0
        } else {
            1
        };
        assert(first <= p@.len());
        assert(start =~= start + p@.subrange(first as int, first as int));
        for j in first..p.len()
            invariant
                first <= p@.len(),
                r@ == start + p@.subrange(first as int, j as int),
        {
            r.push(p[j]);
            assert(r@ =~= start + p@.subrange(first as int, j + 1));
        }
        proof {
            let next = chain@.take(i as int + 1);
            assert(next.drop_last() =~= chain@.take(i as int));
            assert(model[chain@[i as int] as int] == p@);
            if i == 0 {
                assert(p@.subrange(0, p@.len() as int) =~= p@);
                assert(start + p@ =~= p@);
            } else {
                assert(p@.subrange(1, p@.len() as int) =~= p@.drop_first());
            }
        }
    }
    assert(chain@.take(chain@.len() as int) =~= chain@);
    r
}

// Classes in a collection.

/// The members of a fragment: those of a collection, or the fragment
/// itself.
pub open spec fn members_of(g: GeometryModel) -> Seq<GeometryModel> {
    match g {
        GeometryModel::GeometryCollection(ms) => ms,
        _ => seq![g],
    }
}

/// The members of all fragments.
pub open spec fn all_members(parts: Seq<GeometryModel>) -> Seq<GeometryModel>
    decreases parts.len(),
{
    if parts.len() == 0 {
        Seq::empty()
    } else {
        all_members(parts.drop_last()) + members_of(parts.last())
    }
}

/// The classes that occur, in the order in which they are first seen.
pub open spec fn classes_seen(ms: Seq<GeometryModel>) -> Seq<Class>
    decreases ms.len(),
{
    if ms.len() == 0 {
        Seq::empty()
    } else {
        let before = classes_seen(ms.drop_last());
        if before.contains(class_of(ms.last())) {
            before
        } else {
            before.push(class_of(ms.last()))
        }
    }
}

/// The members of one class, in order.
pub open spec fn of_class(ms: Seq<GeometryModel>, c: Class) -> Seq<GeometryModel> {
    ms.filter(|m: GeometryModel| class_of(m) == c)
}

/// The members of all fragments, borrowed.
pub fn flatten<'a>(parts: &Vec<&'a FeatureGeometry>) -> (r: Vec<&'a FeatureGeometry>)
    ensures
        parts_model(r@) == all_members(parts_model(parts@)),
{
    let ghost model = parts_model(parts@);
    let mut r: Vec<&'a FeatureGeometry> = Vec::new();
    assert(parts_model(r@) =~= all_members(model.take(0)));
    for i in 0..parts.len()
        invariant
            model == parts_model(parts@),
            parts_model(r@) == all_members(model.take(i as int)),
    {
        let ghost before = parts_model(r@);
        assert(model.take(i as int + 1).drop_last() =~= model.take(i as int));
        let part: &'a FeatureGeometry = parts[i];
        match part {
            FeatureGeometry::GeometryCollection(ms) => {
                proof {
                    chunk::collection_model(*ms);
                }
                let ghost members = chunk::geometries_model(ms@);
                assert(before =~= before + members.take(0));
                for j in 0..ms.len()
                    invariant
                        members == chunk::geometries_model(ms@),
                        parts_model(r@) == before + members.take(j as int),
                {
                    let ghost now = parts_model(r@);
                    r.push(&ms[j]);
                    assert(parts_model(r@) =~= now.push(members[j as int]));
                    assert(parts_model(r@) =~= before + members.take(j as int + 1));
                }
                assert(members.take(members.len() as int) =~= members);
            },
            _ => {
                r.push(part);
                assert(parts_model(r@) =~= before + seq![part@]);
            },
        }
    }
    assert(model.take(model.len() as int) =~= model);
    r
}

/// The buckets in which the members of a collection merge: one per class,
/// in the order in which the classes are first seen.
pub fn buckets<'a>(members: &Vec<&'a FeatureGeometry>) -> (r: Vec<(Class, Vec<&'a FeatureGeometry>)>)
    ensures
        Seq::new(r@.len(), |i: int| r@[i].0) == classes_seen(parts_model(members@)),
        forall|i: int|
            0 <= i < r@.len() ==> parts_model((#[trigger] r@[i]).1@) == of_class(
                parts_model(members@),
                r@[i].0,
            ),
{
    let ghost model = parts_model(members@);
    let mut seen: Vec<Class> = Vec::new();
    for i in 0..members.len()
        invariant
            model == parts_model(members@),
            seen@ == classes_seen(model.take(i as int)),
    {
        assert(model.take(i as int + 1).drop_last() =~= model.take(i as int));
        let c = class(members[i]);
        let mut known: bool = false;
        for j in 0..seen.len()
            invariant
                known == (exists|k: int| 0 <= k < j && seen@[k] == c),
        {
            if seen[j] == c {
                known = true;
                assert(seen@[j as int] == c);
            }
        }
        assert(known == seen@.contains(c));
        if !known {
            seen.push(c);
        }
    }
    assert(model.take(model.len() as int) =~= model);
    let mut r: Vec<(Class, Vec<&'a FeatureGeometry>)> = Vec::new();
    for i in 0..seen.len()
        invariant
            model == parts_model(members@),
            r@.len() == i,
            forall|k: int|
                0 <= k < i ==> (#[trigger] r@[k]).0 == seen@[k] && parts_model(r@[k].1@)
                    == of_class(model, seen@[k]),
    {
        let c = seen[i];
        let mut bucket: Vec<&'a FeatureGeometry> = Vec::new();
        proof {
            reveal(Seq::filter);
            assert(parts_model(bucket@) =~= of_class(model.take(0), c));
        }
        for j in 0..members.len()
            invariant
                model == parts_model(members@),
                parts_model(bucket@) == of_class(model.take(j as int), c),
        {
            let ghost before = parts_model(bucket@);
            proof {
                reveal(Seq::filter);
                assert(model.take(j as int + 1).drop_last() =~= model.take(j as int));
            }
            if class(members[j]) == c {
                bucket.push(members[j]);
                assert(parts_model(bucket@) =~= before.push(model[j as int]));
            }
        }
        assert(model.take(model.len() as int) =~= model);
        r.push((c, bucket));
    }
    assert(Seq::new(r@.len(), |i: int| r@[i].0) =~= seen@);
    r
}

} // verus!
