//! Fragments merged back into the features that tiles cut apart.

use vstd::prelude::*;

use crate::chunk;
use crate::chunk::{
    Coord, FeatureGeometry, FeatureModel, GeometryModel, Polygon, PolygonModel, VectorChunk,
    VectorFeature,
};
use crate::config;
use crate::fragments;
use crate::fragments::Class;
use crate::geometry;
use crate::json;
use crate::vector;
use crate::window::Bbox;

verus! {

// Polygons.

/// The polygons of the polygon fragments.
pub open spec fn polygons_in(parts: Seq<GeometryModel>) -> Seq<PolygonModel>
    decreases parts.len(),
{
    if parts.len() == 0 {
        Seq::empty()
    } else {
        polygons_in(parts.drop_last()) + (match parts.last() {
            GeometryModel::Polygon(p) => seq![p],
            GeometryModel::MultiPolygon(ps) => ps,
            _ => Seq::empty(),
        })
    }
}

/// The union that is handed in can be asked of any polygons.
pub open spec fn is_union<U: Fn(Vec<Polygon>, Polygon) -> Vec<Polygon>>(u: U) -> bool {
    forall|v: Vec<Polygon>, p: Polygon| #[trigger] u.requires((v, p))
}

/// The union that is handed in makes some polygons of others and one more.
pub open spec fn unites<U: Fn(Vec<Polygon>, Polygon) -> Vec<Polygon>>(
    u: U,
    v: Vec<Polygon>,
    p: Polygon,
    w: Vec<Polygon>,
) -> bool {
    u.ensures((v, p), w)
}

/// Polygons are what comes of some others when each behind the first is
/// united with what stands so far.
pub open spec fn is_united<U: Fn(Vec<Polygon>, Polygon) -> Vec<Polygon>>(
    u: U,
    ps: Seq<PolygonModel>,
    w: Vec<Polygon>,
) -> bool
    decreases ps.len(),
{
    if ps.len() <= 1 {
        chunk::polygons_model(w@) == ps
    } else {
        exists|v: Vec<Polygon>, p: Polygon| #[trigger]
            unites(u, v, p, w) && p@ == ps.last() && is_united(u, ps.drop_last(), v)
    }
}

/// A result is the union of polygons.
pub open spec fn polygons_merge<U: Fn(Vec<Polygon>, Polygon) -> Vec<Polygon>>(
    u: U,
    ps: Seq<PolygonModel>,
    r: Option<GeometryModel>,
) -> bool {
    exists|w: Vec<Polygon>| #[trigger]
        is_united(u, ps, w) && r == fragments::as_polygons(chunk::polygons_model(w@))
}

fn unite<U: Fn(Vec<Polygon>, Polygon) -> Vec<Polygon>>(u: &U, ps: Vec<Polygon>) -> (w: Vec<Polygon>)
    requires
        is_union(*u),
    ensures
        is_united(*u, chunk::polygons_model(ps@), w),
{
    let ghost model = chunk::polygons_model(ps@);
    let mut merged: Vec<Polygon> = Vec::new();
    if ps.len() == 0 {
        assert(chunk::polygons_model(merged@) =~= model);
        return merged;
    }
    merged.push(config::copy_polygon(&ps[0]));
    assert(chunk::polygons_model(merged@) =~= model.take(1));
    for k in 1..ps.len()
        invariant
            is_union(*u),
            model == chunk::polygons_model(ps@),
            1 <= k <= ps@.len(),
            is_united(*u, model.take(k as int), merged),
    {
        let ghost before = merged;
        let p = config::copy_polygon(&ps[k]);
        let ghost added = p;
        merged = u(merged, p);
        proof {
            assert(unites(*u, before, added, merged));
            assert(model.take(k + 1).drop_last() =~= model.take(k as int));
            assert(added@ == model.take(k + 1).last());
            assert(is_united(*u, model.take(k + 1), merged));
        }
    }
    assert(model.take(model.len() as int) =~= model);
    merged
}

fn push_polygons(ps: &Vec<Polygon>, out: &mut Vec<Polygon>)
    ensures
        chunk::polygons_model(final(out)@) == chunk::polygons_model(old(out)@)
            + chunk::polygons_model(ps@),
{
    let ghost start = chunk::polygons_model(out@);
    let ghost add = chunk::polygons_model(ps@);
    assert(start + add.take(0) =~= start);
    for k in 0..ps.len()
        invariant
            add == chunk::polygons_model(ps@),
            chunk::polygons_model(out@) == start + add.take(k as int),
    {
        let ghost so_far = chunk::polygons_model(out@);
        out.push(config::copy_polygon(&ps[k]));
        assert(chunk::polygons_model(out@) =~= so_far.push(add[k as int]));
        assert(chunk::polygons_model(out@) =~= start + add.take(k + 1));
    }
    assert(add.take(add.len() as int) =~= add);
}

fn gather_polygons(parts: &Vec<&FeatureGeometry>) -> (r: Vec<Polygon>)
    ensures
        chunk::polygons_model(r@) == polygons_in(fragments::parts_model(parts@)),
{
    let ghost model = fragments::parts_model(parts@);
    let mut out: Vec<Polygon> = Vec::new();
    assert(chunk::polygons_model(out@) =~= polygons_in(model.take(0)));
    for i in 0..parts.len()
        invariant
            model == fragments::parts_model(parts@),
            chunk::polygons_model(out@) == polygons_in(model.take(i as int)),
    {
        let ghost before = chunk::polygons_model(out@);
        assert(model.take(i + 1).drop_last() =~= model.take(i as int));
        match parts[i] {
            FeatureGeometry::Polygon(p) => {
                out.push(config::copy_polygon(p));
                assert(chunk::polygons_model(out@) =~= before + seq![p@]);
            },
            FeatureGeometry::MultiPolygon(ps) => {
                push_polygons(ps, &mut out);
            },
            _ => {
                assert(before + Seq::<PolygonModel>::empty() =~= before);
            },
        }
    }
    assert(model.take(model.len() as int) =~= model);
    out
}

// Lines.

/// The nearness of ends that is handed in can be asked of any two and
/// always gives one answer.
pub open spec fn is_meeting<M: Fn(Coord, Coord) -> bool>(m: M) -> bool {
    &&& forall|a: Coord, b: Coord| #[trigger] m.requires((a, b))
    &&& forall|a: Coord, b: Coord|
        !(#[trigger] m.ensures((a, b), true) && m.ensures((a, b), false))
}

/// The end of a piece meets the start of another.
pub open spec fn ends_meet<M: Fn(Coord, Coord) -> bool>(m: M, a: Seq<Coord>, b: Seq<Coord>) -> bool {
    a.len() > 0 && b.len() > 0 && m.ensures((a.last(), b[0]), true)
}

/// Which ends of some pieces meet which starts.
pub open spec fn meetings<M: Fn(Coord, Coord) -> bool>(m: M, ls: Seq<Seq<Coord>>) -> Seq<Seq<bool>> {
    Seq::new(ls.len(), |a: int| Seq::new(ls.len(), |b: int| ends_meet(m, ls[a], ls[b])))
}

/// Pieces joined where their ends meet.
pub open spec fn joined_lines<M: Fn(Coord, Coord) -> bool>(m: M, ls: Seq<Seq<Coord>>) -> Seq<
    Seq<Coord>,
> {
    let cs = fragments::chains(meetings(m, ls), Seq::new(ls.len(), |i: int| i as usize));
    Seq::new(cs.len(), |i: int| fragments::chained(ls, cs[i]))
}

fn meeting_table<M: Fn(Coord, Coord) -> bool>(m: &M, ls: &Vec<Vec<Coord>>) -> (r: Vec<Vec<bool>>)
    requires
        is_meeting(*m),
    ensures
        fragments::square(r@, ls@.len() as int),
        fragments::table_model(r@) == meetings(*m, chunk::lines_model(ls@)),
{
    let ghost model = chunk::lines_model(ls@);
    let n: usize = ls.len();
    let mut r: Vec<Vec<bool>> = Vec::new();
    for a in 0..n
        invariant
            n == ls@.len(),
            model == chunk::lines_model(ls@),
            is_meeting(*m),
            r@.len() == a,
            forall|i: int|
                0 <= i < a ==> (#[trigger] r@[i])@ == Seq::new(
                    model.len(),
                    |b: int| ends_meet(*m, model[i], model[b]),
                ),
    {
        let mut row: Vec<bool> = Vec::new();
        for b in 0..n
            invariant
                a < n,
                n == ls@.len(),
                model == chunk::lines_model(ls@),
                is_meeting(*m),
                row@ == Seq::new(b as nat, |k: int| ends_meet(*m, model[a as int], model[k])),
        {
            let x = &ls[a];
            let y = &ls[b];
            let hit: bool = if x.len() == 0 || y.len() == 0 {
                false
            } else {
                let (end, start) = (x[x.len() - 1], y[0]);
                let h: bool = m(end, start);
                assert(m.ensures((end, start), h));
                assert(end == model[a as int].last());
                h
            };
            row.push(hit);
            assert(row@ =~= Seq::new(
                (b + 1) as nat,
                |k: int| ends_meet(*m, model[a as int], model[k]),
            ));
        }
        r.push(row);
    }
    assert(fragments::table_model(r@) =~= meetings(*m, model));
    r
}

fn join_lines<M: Fn(Coord, Coord) -> bool>(m: &M, ls: &Vec<Vec<Coord>>) -> (r: Vec<Vec<Coord>>)
    requires
        is_meeting(*m),
    ensures
        chunk::lines_model(r@) == joined_lines(*m, chunk::lines_model(ls@)),
{
    let ghost model = chunk::lines_model(ls@);
    let meets = meeting_table(m, ls);
    let ghost table = meetings(*m, model);
    let chains = fragments::stitch(&meets);
    let ghost cs = fragments::chains(table, Seq::new(model.len(), |i: int| i as usize));
    assert(Seq::new(chains@.len(), |i: int| chains@[i]@) == cs);
    let n: usize = ls.len();
    let mut r: Vec<Vec<Coord>> = Vec::new();
    for i in 0..chains.len()
        invariant
            n == ls@.len(),
            model == chunk::lines_model(ls@),
            table == meetings(*m, model),
            cs == fragments::chains(table, Seq::new(model.len(), |i: int| i as usize)),
            Seq::new(chains@.len(), |i: int| chains@[i]@) == cs,
            forall|i: int|
                0 <= i < chains@.len() ==> fragments::in_range((#[trigger] chains@[i])@, n as int),
            r@.len() == i,
            forall|k: int|
                0 <= k < i ==> (#[trigger] r@[k])@ == fragments::chained(model, cs[k]),
    {
        let chain = &chains[i];
        proof {
            assert(cs[i as int] == chain@);
            fragments::joining_keeps_every_piece(
                table,
                Seq::new(model.len(), |i: int| i as usize),
            );
            assert forall|k: int| 1 <= k < chain@.len() implies ls@[
            #[trigger] chain@[k] as int]@.len() > 0 by {
                assert(fragments::joins(table, chain@[k - 1], chain@[k - 1 + 1]));
                assert(chain@[k] < n && chain@[k - 1] < n);
                assert(ends_meet(*m, model[chain@[k - 1] as int], model[chain@[k] as int]));
            }
        }
        r.push(fragments::join_chain(ls, chain));
    }
    assert(chunk::lines_model(r@) =~= joined_lines(*m, model));
    r
}

// Classes.

/// How deep a geometry's collections are nested.
pub open spec fn height(g: GeometryModel) -> nat
    decreases g,
{
    match g {
        GeometryModel::GeometryCollection(ms) => 1 + heights(ms),
        _ => 0,
    }
}

pub open spec fn heights(ms: Seq<GeometryModel>) -> nat
    decreases ms,
{
    if ms.len() == 0 {
        0
    } else {
        let before = heights(ms.drop_last());
        if before < height(ms.last()) {
            height(ms.last())
        } else {
            before
        }
    }
}

proof fn members_are_lower(ms: Seq<GeometryModel>, i: int)
    requires
        0 <= i < ms.len(),
    ensures
        height(ms[i]) <= heights(ms),
    decreases ms.len(),
{
    if i < ms.len() - 1 {
        members_are_lower(ms.drop_last(), i);
        assert(ms.drop_last()[i] == ms[i]);
    }
}

proof fn nested_members_are_lower(parts: Seq<GeometryModel>, k: int)
    requires
        0 <= k < fragments::all_members(parts).len(),
        fragments::class_of(fragments::all_members(parts)[k]) is Collection,
    ensures
        height(fragments::all_members(parts)[k]) < heights(parts),
    decreases parts.len(),
{
    let before = fragments::all_members(parts.drop_last());
    let own = fragments::members_of(parts.last());
    if k < before.len() {
        nested_members_are_lower(parts.drop_last(), k);
    } else {
        let m = own[k - before.len()];
        if let GeometryModel::GeometryCollection(ms) = parts.last() {
            members_are_lower(ms, k - before.len());
            assert(height(parts.last()) == 1 + heights(ms));
            assert(ms[k - before.len()] == m);
        }
        members_are_lower(parts, parts.len() - 1);
        assert(fragments::all_members(parts)[k] == m);
    }
}

proof fn class_heights(ms: Seq<GeometryModel>, c: Class, d: nat)
    requires
        forall|k: int|
            0 <= k < ms.len() && fragments::class_of(#[trigger] ms[k]) == c ==> height(ms[k]) <= d,
    ensures
        heights(fragments::of_class(ms, c)) <= d,
    decreases ms.len(),
{
    reveal(Seq::filter);
    if ms.len() > 0 {
        let rest = ms.drop_last();
        assert forall|k: int|
            0 <= k < rest.len() && fragments::class_of(#[trigger] rest[k]) == c implies height(
            rest[k],
        ) <= d by {
            assert(rest[k] == ms[k]);
        }
        class_heights(rest, c, d);
        assert(ms[ms.len() - 1] == ms.last());
        let before = fragments::of_class(rest, c);
        let all = fragments::of_class(ms, c);
        if fragments::class_of(ms.last()) == c {
            assert(all =~= before.push(ms.last()));
            assert(all.drop_last() =~= before);
        } else {
            assert(all =~= before);
        }
    }
}

/// A result is what fragments of one feature merge to, by the class of the
/// first. A collection merges class by class, its nesting no deeper than
/// `depth`.
pub open spec fn merges<U: Fn(Vec<Polygon>, Polygon) -> Vec<Polygon>, M: Fn(Coord, Coord) -> bool>(
    u: U,
    m: M,
    parts: Seq<GeometryModel>,
    r: Option<GeometryModel>,
    depth: nat,
) -> bool
    decreases depth, 1int, 0int,
{
    if parts.len() == 0 {
        r is None
    } else {
        match fragments::class_of(parts[0]) {
            Class::Point => r == fragments::as_points(fragments::points_of(parts)),
            Class::Line => r == fragments::as_lines(joined_lines(m, fragments::lines_of(parts))),
            Class::Polygon => polygons_merge(u, polygons_in(parts), r),
            Class::Collection => {
                let ms = fragments::all_members(parts);
                let cs = fragments::classes_seen(ms);
                depth > 0 && (match r {
                    None => classes_merge(
                        u,
                        m,
                        ms,
                        cs,
                        Seq::empty(),
                        cs.len() as int,
                        (depth - 1) as nat,
                    ),
                    Some(GeometryModel::GeometryCollection(out)) => out.len() > 0 && classes_merge(
                        u,
                        m,
                        ms,
                        cs,
                        out,
                        cs.len() as int,
                        (depth - 1) as nat,
                    ),
                    _ => false,
                })
            },
        }
    }
}

/// Geometries are what the members of the first `n` classes merge to, one
/// per class that leaves something.
pub open spec fn classes_merge<U: Fn(Vec<Polygon>, Polygon) -> Vec<Polygon>, M: Fn(Coord, Coord) -> bool>(
    u: U,
    m: M,
    ms: Seq<GeometryModel>,
    cs: Seq<Class>,
    out: Seq<GeometryModel>,
    n: int,
    depth: nat,
) -> bool
    decreases depth, 2int, n,
{
    if n <= 0 {
        out.len() == 0
    } else {
        let bucket = fragments::of_class(ms, cs[n - 1]);
        ||| merges(u, m, bucket, None, depth) && classes_merge(u, m, ms, cs, out, n - 1, depth)
        ||| out.len() > 0 && merges(u, m, bucket, Some(out.last()), depth) && classes_merge(
            u,
            m,
            ms,
            cs,
            out.drop_last(),
            n - 1,
            depth,
        )
    }
}

/// What a borrowed geometry is, where there is one.
pub open spec fn shape_of(r: Option<FeatureGeometry>) -> Option<GeometryModel> {
    match r {
        Some(g) => Some(g@),
        None => None,
    }
}

fn merge_class<U: Fn(Vec<Polygon>, Polygon) -> Vec<Polygon>, M: Fn(Coord, Coord) -> bool>(
    u: &U,
    m: &M,
    parts: &Vec<&FeatureGeometry>,
    Ghost(depth): Ghost<nat>,
) -> (r: Option<FeatureGeometry>)
    requires
        is_union(*u),
        is_meeting(*m),
        heights(fragments::parts_model(parts@)) <= depth,
    ensures
        merges(*u, *m, fragments::parts_model(parts@), shape_of(r), depth),
    decreases depth,
{
    let ghost model = fragments::parts_model(parts@);
    if parts.len() == 0 {
        return None;
    }
    assert(model[0] == parts@[0]@);
    match fragments::class(parts[0]) {
        Class::Point => fragments::merge_puntal(parts),
        Class::Line => {
            let pieces = fragments::line_pieces(parts);
            fragments::merge_lineal(join_lines(m, &pieces))
        },
        Class::Polygon => {
            let united = unite(u, gather_polygons(parts));
            assert(is_united(*u, polygons_in(model), united));
            fragments::merge_polygonal(united)
        },
        Class::Collection => {
            let members = fragments::flatten(parts);
            let ghost ms = fragments::parts_model(members@);
            let ghost cs = fragments::classes_seen(ms);
            let buckets = fragments::buckets(&members);
            proof {
                members_are_lower(model, 0);
                assert(depth > 0);
            }
            let ghost below = (depth - 1) as nat;
            let mut out: Vec<FeatureGeometry> = Vec::new();
            for i in 0..buckets.len()
                invariant
                    is_union(*u),
                    is_meeting(*m),
                    depth > 0,
                    below == depth - 1,
                    heights(model) <= depth,
                    ms == fragments::all_members(model),
                    cs == fragments::classes_seen(ms),
                    Seq::new(buckets@.len(), |i: int| buckets@[i].0) == cs,
                    forall|i: int|
                        0 <= i < buckets@.len() ==> fragments::parts_model((#[trigger] buckets@[i]).1@)
                            == fragments::of_class(ms, buckets@[i].0),
                    classes_merge(
                        *u,
                        *m,
                        ms,
                        cs,
                        chunk::geometries_model(out@),
                        i as int,
                        below,
                    ),
            {
                let ghost c = cs[i as int];
                proof {
                    assert(buckets@[i as int].0 == c);
                    assert forall|k: int|
                        0 <= k < ms.len() && fragments::class_of(#[trigger] ms[k])
                            == c implies height(ms[k]) <= below by {
                        if c is Collection {
                            nested_members_are_lower(model, k);
                        }
                    }
                    class_heights(ms, c, below);
                }
                let merged = merge_class(u, m, &buckets[i].1, Ghost(below));
                let ghost before = chunk::geometries_model(out@);
                if let Some(g) = merged {
                    let ghost added = g@;
                    out.push(g);
                    proof {
                        let after = chunk::geometries_model(out@);
                        assert(after =~= before.push(added));
                        assert(after.drop_last() =~= before);
                    }
                }
            }
            proof {
                chunk::collection_model(out);
            }
            if out.len() == 0 {
                assert(chunk::geometries_model(out@) =~= Seq::empty());
                None
            } else {
                Some(FeatureGeometry::GeometryCollection(out))
            }
        },
    }
}

/// A result is what the fragments of one feature merge to. A lone fragment
/// stays as it is.
pub open spec fn fragments_merge<U: Fn(Vec<Polygon>, Polygon) -> Vec<Polygon>, M: Fn(Coord, Coord) -> bool>(
    u: U,
    m: M,
    parts: Seq<GeometryModel>,
    r: Option<GeometryModel>,
) -> bool {
    if parts.len() == 1 {
        r == Some(parts[0])
    } else {
        merges(u, m, parts, r, heights(parts))
    }
}

/// Merge the fragments of one feature: the union of polygons and the
/// nearness of ends are handed in.
pub fn merge_fragments<U: Fn(Vec<Polygon>, Polygon) -> Vec<Polygon>, M: Fn(Coord, Coord) -> bool>(
    u: &U,
    m: &M,
    parts: &Vec<&FeatureGeometry>,
) -> (r: Option<FeatureGeometry>)
    requires
        is_union(*u),
        is_meeting(*m),
    ensures
        fragments_merge(*u, *m, fragments::parts_model(parts@), shape_of(r)),
{
    let ghost model = fragments::parts_model(parts@);
    if parts.len() == 1 {
        assert(model[0] == parts@[0]@);
        Some(vector::copy_geometry(parts[0]))
    } else {
        merge_class(u, m, parts, Ghost(heights(model)))
    }
}

// Features.

/// The ids of features.
pub open spec fn model_ids(fs: Seq<FeatureModel>) -> Seq<u64> {
    Seq::new(fs.len(), |i: int| fs[i].id)
}

/// The ids that occur, each once, rising.
pub open spec fn is_id_list(ids: Seq<u64>, all: Seq<u64>) -> bool {
    &&& fragments::rising(ids)
    &&& forall|id: u64| #[trigger] ids.contains(id) <==> all.contains(id)
}

/// Features are what the fragments of the first `n` ids merge to: one per
/// id that leaves something, with the properties of its first fragment.
pub open spec fn dissolved<U: Fn(Vec<Polygon>, Polygon) -> Vec<Polygon>, M: Fn(Coord, Coord) -> bool>(
    u: U,
    m: M,
    fs: Seq<FeatureModel>,
    ids: Seq<u64>,
    out: Seq<FeatureModel>,
    n: int,
) -> bool
    decreases n,
{
    if n <= 0 {
        out.len() == 0
    } else {
        let own = fragments::with_id(fs, ids[n - 1]);
        let parts = vector::shapes(own);
        ||| fragments_merge(u, m, parts, None) && dissolved(u, m, fs, ids, out, n - 1)
        ||| {
            &&& out.len() > 0
            &&& out.last().id == ids[n - 1]
            &&& out.last().properties == own[0].properties
            &&& fragments_merge(u, m, parts, Some(out.last().geometry))
            &&& dissolved(u, m, fs, ids, out.drop_last(), n - 1)
        }
    }
}

/// Features are what the fragments of others merge to, taken in rising
/// order of their ids.
pub open spec fn is_dissolved<
    U: Fn(Vec<Polygon>, Polygon) -> Vec<Polygon>,
    M: Fn(Coord, Coord) -> bool,
>(u: U, m: M, fs: Seq<FeatureModel>, out: Seq<FeatureModel>) -> bool {
    exists|ids: Seq<u64>| #[trigger]
        is_id_list(ids, model_ids(fs)) && dissolved(u, m, fs, ids, out, ids.len() as int)
}

/// A feature comes from the fragments with its id: it has the properties of
/// the first, and the geometry of a lone one.
pub open spec fn comes_from(fs: Seq<FeatureModel>, f: FeatureModel) -> bool {
    let own = fragments::with_id(fs, f.id);
    &&& model_ids(fs).contains(f.id)
    &&& own.len() > 0
    &&& f.properties == own[0].properties
    &&& own.len() == 1 ==> f.geometry == own[0].geometry
}

/// A feature is in one piece.
pub open spec fn is_lone(fs: Seq<FeatureModel>, f: FeatureModel) -> bool {
    fragments::with_id(fs, f.id).len() == 1
}

fn fragments_of<'a>(features: &'a Vec<VectorFeature>, id: u64) -> (r: (
    Vec<&'a FeatureGeometry>,
    usize,
))
    ensures
        ({
            let own = fragments::with_id(chunk::features_model(features@), id);
            &&& fragments::parts_model(r.0@) == vector::shapes(own)
            &&& own.len() > 0 ==> r.1 < features@.len() && features@[r.1 as int]@ == own[0]
        }),
{
    let ghost fs = chunk::features_model(features@);
    let mut parts: Vec<&'a FeatureGeometry> = Vec::new();
    let mut first: usize = 0;
    proof {
        reveal(Seq::filter);
        assert(fragments::parts_model(parts@) =~= vector::shapes(
            fragments::with_id(fs.take(0), id),
        ));
    }
    for i in 0..features.len()
        invariant
            fs == chunk::features_model(features@),
            fragments::parts_model(parts@) == vector::shapes(
                fragments::with_id(fs.take(i as int), id),
            ),
            parts@.len() == fragments::with_id(fs.take(i as int), id).len(),
            parts@.len() > 0 ==> first < features@.len() && features@[first as int]@
                == fragments::with_id(fs.take(i as int), id)[0],
    {
        let ghost before = fragments::with_id(fs.take(i as int), id);
        let ghost listed = fragments::parts_model(parts@);
        proof {
            reveal(Seq::filter);
            assert(fs.take(i + 1).drop_last() =~= fs.take(i as int));
            assert(fs[i as int] == features@[i as int]@);
        }
        if features[i].id == id {
            if parts.len() == 0 {
                first = i;
            }
            parts.push(&features[i].geometry);
            proof {
                let after = fragments::with_id(fs.take(i + 1), id);
                assert(after =~= before.push(fs[i as int]));
                assert(fragments::parts_model(parts@) =~= listed.push(fs[i as int].geometry));
                assert(fragments::parts_model(parts@) =~= vector::shapes(after));
            }
        }
    }
    assert(fs.take(fs.len() as int) =~= fs);
    (parts, first)
}

/// Merge the fragments of each feature, ids rising.
pub fn dissolve_features<U: Fn(Vec<Polygon>, Polygon) -> Vec<Polygon>, M: Fn(Coord, Coord) -> bool>(
    u: &U,
    m: &M,
    features: &Vec<VectorFeature>,
) -> (r: Vec<VectorFeature>)
    requires
        is_union(*u),
        is_meeting(*m),
    ensures
        is_dissolved(*u, *m, chunk::features_model(features@), chunk::features_model(r@)),
{
    let ghost fs = chunk::features_model(features@);
    let ids = fragments::distinct_ids(features);
    let mut out: Vec<VectorFeature> = Vec::new();
    for k in 0..ids.len()
        invariant
            is_union(*u),
            is_meeting(*m),
            fs == chunk::features_model(features@),
            dissolved(*u, *m, fs, ids@, chunk::features_model(out@), k as int),
    {
        let (parts, first) = fragments_of(features, ids[k]);
        let ghost own = fragments::with_id(fs, ids@[k as int]);
        let ghost before = chunk::features_model(out@);
        if let Some(g) = merge_fragments(u, m, &parts) {
            proof {
                if own.len() == 0 {
                    assert(vector::shapes(own).len() == 0);
                }
            }
            let f = VectorFeature {
                id: ids[k],
                geometry: g,
                properties: json::copy_members(&features[first].properties),
            };
            let ghost added = f@;
            out.push(f);
            proof {
                let after = chunk::features_model(out@);
                assert(after =~= before.push(added));
                assert(after.drop_last() =~= before);
            }
        }
    }
    assert(model_ids(fs) =~= fragments::ids_of(features@));
    assert(is_id_list(ids@, model_ids(fs)));
    out
}

impl VectorChunk {
    /// Merge the fragments of each feature: one feature per id, ids rising,
    /// with the properties of its first fragment.
    pub fn dissolve<U: Fn(Vec<Polygon>, Polygon) -> Vec<Polygon>, M: Fn(Coord, Coord) -> bool>(
        &self,
        u: &U,
        m: &M,
    ) -> (r: VectorChunk)
        requires
            is_union(*u),
            is_meeting(*m),
        ensures
            r.place == self.place,
            is_dissolved(
                *u,
                *m,
                chunk::features_model(self.features@),
                chunk::features_model(r.features@),
            ),
            fragments::rising(model_ids(chunk::features_model(r.features@))),
            forall|i: int|
                0 <= i < r.features@.len() ==> comes_from(
                    chunk::features_model(self.features@),
                    (#[trigger] r.features@[i])@,
                ),
            forall|i: int|
                0 <= i < self.features@.len() && is_lone(
                    chunk::features_model(self.features@),
                    (#[trigger] self.features@[i])@,
                ) ==> chunk::features_model(r.features@).contains(self.features@[i]@),
    {
        let features = dissolve_features(u, m, &self.features);
        proof {
            let fs = chunk::features_model(self.features@);
            let out = chunk::features_model(features@);
            dissolved_features_come_from_fragments(*u, *m, fs, out);
            assert forall|i: int| 0 <= i < features@.len() implies comes_from(
                fs,
                (#[trigger] features@[i])@,
            ) by {
                assert(comes_from(fs, out[i]));
            }
            assert forall|i: int|
                0 <= i < self.features@.len() && is_lone(
                    fs,
                    (#[trigger] self.features@[i])@,
                ) implies out.contains(self.features@[i]@) by {
                assert(is_lone(fs, fs[i]));
            }
        }
        VectorChunk { features, place: self.place }
    }
}

/// A feature that no tile cut comes back as it went in.
pub proof fn uncut_features_stay<U: Fn(Vec<Polygon>, Polygon) -> Vec<Polygon>, M: Fn(Coord, Coord) -> bool>(
    u: U,
    m: M,
    g: GeometryModel,
    r: Option<GeometryModel>,
)
    requires
        fragments_merge(u, m, seq![g], r),
    ensures
        r == Some(g),
{
}

/// At most one feature per id comes out, ids rising.
proof fn dissolved_ids_rise<U: Fn(Vec<Polygon>, Polygon) -> Vec<Polygon>, M: Fn(Coord, Coord) -> bool>(
    u: U,
    m: M,
    fs: Seq<FeatureModel>,
    ids: Seq<u64>,
    out: Seq<FeatureModel>,
    n: int,
)
    requires
        fragments::rising(ids),
        0 <= n <= ids.len(),
        dissolved(u, m, fs, ids, out, n),
    ensures
        out.len() <= n,
        forall|i: int| 0 <= i < out.len() ==> ids.take(n).contains((#[trigger] out[i]).id),
        forall|i: int, j: int|
            0 <= i < j < out.len() ==> (#[trigger] out[i]).id < (#[trigger] out[j]).id,
    decreases n,
{
    if n > 0 {
        let own = fragments::with_id(fs, ids[n - 1]);
        let parts = vector::shapes(own);
        if fragments_merge(u, m, parts, None) && dissolved(u, m, fs, ids, out, n - 1) {
            dissolved_ids_rise(u, m, fs, ids, out, n - 1);
            assert forall|i: int| 0 <= i < out.len() implies ids.take(n).contains(
                (#[trigger] out[i]).id,
            ) by {
                let k = ids.take(n - 1).index_of(out[i].id);
                    assert(ids.take(n - 1)[k] == out[i].id);
                assert(ids.take(n)[k] == out[i].id);
            }
        } else {
            let rest = out.drop_last();
            dissolved_ids_rise(u, m, fs, ids, rest, n - 1);
            assert(ids.take(n)[n - 1] == out.last().id);
            assert forall|i: int| 0 <= i < out.len() implies ids.take(n).contains(
                (#[trigger] out[i]).id,
            ) && (i < out.len() - 1 ==> out[i].id < out.last().id) by {
                if i < out.len() - 1 {
                    assert(rest[i] == out[i]);
                    let k = ids.take(n - 1).index_of(out[i].id);
                    assert(ids.take(n - 1)[k] == out[i].id);
                    assert(ids.take(n)[k] == out[i].id);
                    assert(ids[k] < ids[n - 1]);
                }
            }
            assert forall|i: int, j: int| 0 <= i < j < out.len() implies (#[trigger] out[i]).id < (
            #[trigger] out[j]).id by {
                if j < out.len() - 1 {
                    assert(rest[i] == out[i] && rest[j] == out[j]);
                }
            }
        }
    }
}

proof fn ids_find_fragments(fs: Seq<FeatureModel>, id: u64)
    requires
        model_ids(fs).contains(id),
    ensures
        fragments::with_id(fs, id).len() > 0,
    decreases fs.len(),
{
    reveal(Seq::filter);
    let k = model_ids(fs).index_of(id);
    assert(model_ids(fs)[k] == id);
    assert(fs[k].id == id);
    if fs.last().id != id {
        assert(model_ids(fs.drop_last())[k] == id);
        assert(model_ids(fs.drop_last()).contains(id));
        ids_find_fragments(fs.drop_last(), id);
    }
}

proof fn dissolved_prefix<
    U: Fn(Vec<Polygon>, Polygon) -> Vec<Polygon>,
    M: Fn(Coord, Coord) -> bool,
>(
    u: U,
    m: M,
    fs: Seq<FeatureModel>,
    ids: Seq<u64>,
    out: Seq<FeatureModel>,
    n: int,
)
    requires
        is_id_list(ids, model_ids(fs)),
        0 <= n <= ids.len(),
        dissolved(u, m, fs, ids, out, n),
    ensures
        forall|i: int|
            0 <= i < out.len() ==> comes_from(fs, #[trigger] out[i]),
        forall|k: int|
            0 <= k < n && fragments::with_id(fs, #[trigger] ids[k]).len() == 1
                ==> model_ids(out).contains(ids[k]),
    decreases n,
{
    if n > 0 {
        let id = ids[n - 1];
        let own = fragments::with_id(fs, id);
        let parts = vector::shapes(own);
        assert(ids.contains(id));
        ids_find_fragments(fs, id);
        if fragments_merge(u, m, parts, None) && dissolved(u, m, fs, ids, out, n - 1) {
            dissolved_prefix(u, m, fs, ids, out, n - 1);
        } else {
            let rest = out.drop_last();
            dissolved_prefix(u, m, fs, ids, rest, n - 1);
            assert forall|i: int| 0 <= i < out.len() implies comes_from(
                fs,
                #[trigger] out[i],
            ) by {
                if i < out.len() - 1 {
                    assert(rest[i] == out[i]);
                } else {
                    assert(out[i] == out.last());
                    if own.len() == 1 {
                        assert(parts[0] == own[0].geometry);
                    }
                }
            }
            assert forall|k: int|
                0 <= k < n && fragments::with_id(
                    fs,
                    #[trigger] ids[k],
                ).len() == 1 implies model_ids(out).contains(ids[k]) by {
                if k < n - 1 {
                    let z = model_ids(rest).index_of(ids[k]);
                    assert(model_ids(rest)[z] == ids[k]);
                    assert(model_ids(out)[z] == ids[k]);
                } else {
                    assert(model_ids(out)[out.len() - 1] == ids[k]);
                }
            }
        }
    }
}

/// One feature per id comes out, ids rising: with an id that went in, the
/// properties of the first fragment with it, and the geometry of a lone one.
/// A lone fragment always comes out, as it was.
pub proof fn dissolved_features_come_from_fragments<
    U: Fn(Vec<Polygon>, Polygon) -> Vec<Polygon>,
    M: Fn(Coord, Coord) -> bool,
>(u: U, m: M, fs: Seq<FeatureModel>, out: Seq<FeatureModel>)
    requires
        is_dissolved(u, m, fs, out),
    ensures
        fragments::rising(model_ids(out)),
        forall|i: int| 0 <= i < out.len() ==> comes_from(fs, #[trigger] out[i]),
        forall|i: int|
            0 <= i < fs.len() && is_lone(fs, #[trigger] fs[i]) ==> out.contains(fs[i]),
{
    let ids = choose|ids: Seq<u64>| #[trigger]
        is_id_list(ids, model_ids(fs)) && dissolved(u, m, fs, ids, out, ids.len() as int);
    let n = ids.len() as int;
    dissolved_ids_rise(u, m, fs, ids, out, n);
    dissolved_prefix(u, m, fs, ids, out, n);
    let rising = model_ids(out);
    assert forall|i: int, j: int| 0 <= i < j < rising.len() implies rising[i] < rising[j] by {
        assert(out[i].id < out[j].id);
    }
    assert forall|i: int| 0 <= i < fs.len() && is_lone(fs, #[trigger] fs[i]) implies out.contains(
        fs[i],
    ) by {
        let f = fs[i];
        let own = fragments::with_id(fs, f.id);
        assert(model_ids(fs)[i] == f.id);
        assert(model_ids(fs).contains(f.id));
        assert(ids.contains(f.id));
        let k = ids.index_of(f.id);
        assert(ids[k] == f.id);
        let z = rising.index_of(f.id);
        assert(rising[z] == f.id);
        assert(comes_from(fs, out[z]));
        fragments_are_listed(fs, i);
        assert(out[z] == f);
    }
}

proof fn fragments_are_listed(fs: Seq<FeatureModel>, i: int)
    requires
        0 <= i < fs.len(),
    ensures
        fragments::with_id(fs, fs[i].id).contains(fs[i]),
{
    let id = fs[i].id;
    fs.filter_lemma(|f: FeatureModel| f.id == id);
}

/// Two rising lists of the same ids are one list.
proof fn rising_lists_are_one(a: Seq<u64>, b: Seq<u64>)
    requires
        fragments::rising(a),
        fragments::rising(b),
        forall|id: u64| #[trigger] a.contains(id) <==> b.contains(id),
    ensures
        a == b,
    decreases a.len(),
{
    if a.len() == 0 {
        if b.len() > 0 {
            assert(b.contains(b[0]));
            assert(a.contains(b[0]));
        }
        assert(a =~= b);
    } else {
        assert(a.contains(a.last()));
        assert(b.contains(a.last()));
        assert(b.len() > 0);
        assert(b.contains(b.last()));
        assert(a.contains(b.last()));
        let i = b.index_of(a.last());
        let j = a.index_of(b.last());
        assert(b[i] == a.last() && a[j] == b.last());
        if i < b.len() - 1 {
            assert(b[i] < b[b.len() - 1]);
        }
        if j < a.len() - 1 {
            assert(a[j] < a[a.len() - 1]);
        }
        assert(a.last() == b.last());
        let x = a.drop_last();
        let y = b.drop_last();
        assert(fragments::rising(x));
        assert(fragments::rising(y));
        assert forall|id: u64| #[trigger] x.contains(id) <==> y.contains(id) by {
            if x.contains(id) {
                let k = x.index_of(id);
                assert(a[k] == id);
                assert(a[k] < a[a.len() - 1]);
                assert(a.contains(id));
                assert(b.contains(id));
                let z = b.index_of(id);
                assert(b[z] == id);
                assert(y[z] == id);
            }
            if y.contains(id) {
                let k = y.index_of(id);
                assert(b[k] == id);
                assert(b[k] < b[b.len() - 1]);
                assert(b.contains(id));
                assert(a.contains(id));
                let z = a.index_of(id);
                assert(a[z] == id);
                assert(x[z] == id);
            }
        }
        rising_lists_are_one(x, y);
        assert(x.push(a.last()) =~= a);
        assert(y.push(b.last()) =~= b);
    }
}

proof fn one_with_id(fs: Seq<FeatureModel>, k: int)
    requires
        fragments::rising(model_ids(fs)),
        0 <= k < fs.len(),
    ensures
        fragments::with_id(fs, fs[k].id) == seq![fs[k]],
    decreases fs.len(),
{
    reveal(Seq::filter);
    let rest = fs.drop_last();
    let id = fs[k].id;
    assert(model_ids(fs)[k] == id);
    if k == fs.len() - 1 {
        assert forall|i: int| 0 <= i < rest.len() implies (#[trigger] rest[i]).id != id by {
            assert(model_ids(fs)[i] < model_ids(fs)[k]);
        }
        none_with_id(rest, id, rest.len() as int);
        assert(fragments::with_id(fs, id) =~= seq![fs[k]]);
    } else {
        assert(fragments::rising(model_ids(rest))) by {
            assert forall|i: int, j: int| 0 <= i < j < model_ids(rest).len() implies model_ids(
                rest,
            )[i] < model_ids(rest)[j] by {
                assert(model_ids(fs)[i] < model_ids(fs)[j]);
            }
        }
        one_with_id(rest, k);
        assert(rest[k] == fs[k]);
        assert(model_ids(fs)[k] < model_ids(fs)[fs.len() - 1]);
        assert(fs.last().id != id);
    }
}

proof fn none_with_id(fs: Seq<FeatureModel>, id: u64, n: int)
    requires
        n == fs.len(),
    ensures
        (forall|i: int| 0 <= i < fs.len() ==> (#[trigger] fs[i]).id != id) ==> fragments::with_id(
            fs,
            id,
        ).len() == 0,
    decreases n,
{
    reveal(Seq::filter);
    if n > 0 {
        let rest = fs.drop_last();
        none_with_id(rest, id, n - 1);
        if forall|i: int| 0 <= i < fs.len() ==> (#[trigger] fs[i]).id != id {
            assert forall|i: int| 0 <= i < rest.len() implies (#[trigger] rest[i]).id != id by {
                assert(fs[i].id != id);
            }
            assert(fs[n - 1].id != id);
        }
    }
}

proof fn lone_features_stay<
    U: Fn(Vec<Polygon>, Polygon) -> Vec<Polygon>,
    M: Fn(Coord, Coord) -> bool,
>(u: U, m: M, fs: Seq<FeatureModel>, out: Seq<FeatureModel>, n: int)
    requires
        fragments::rising(model_ids(fs)),
        0 <= n <= fs.len(),
        dissolved(u, m, fs, model_ids(fs), out, n),
    ensures
        out == fs.take(n),
    decreases n,
{
    let ids = model_ids(fs);
    if n > 0 {
        one_with_id(fs, n - 1);
        let own = fragments::with_id(fs, ids[n - 1]);
        assert(own == seq![fs[n - 1]]);
        let parts = vector::shapes(own);
        assert(parts =~= seq![fs[n - 1].geometry]);
        lone_features_stay(u, m, fs, out.drop_last(), n - 1);
        assert(out.last() == fs[n - 1]);
        assert(fs.take(n - 1).push(fs[n - 1]) =~= fs.take(n));
        assert(out.drop_last().push(out.last()) =~= out);
    } else {
        assert(out =~= fs.take(0));
    }
}

/// Dissolving what was dissolved changes nothing.
pub proof fn dissolving_twice_is_dissolving_once<
    U: Fn(Vec<Polygon>, Polygon) -> Vec<Polygon>,
    M: Fn(Coord, Coord) -> bool,
>(
    u: U,
    m: M,
    fs: Seq<FeatureModel>,
    once: Seq<FeatureModel>,
    twice: Seq<FeatureModel>,
)
    requires
        is_dissolved(u, m, fs, once),
        is_dissolved(u, m, once, twice),
    ensures
        twice == once,
{
    dissolved_features_come_from_fragments(u, m, fs, once);
    let again = choose|ids: Seq<u64>| #[trigger]
        is_id_list(ids, model_ids(once)) && dissolved(u, m, once, ids, twice, ids.len() as int);
    rising_lists_are_one(again, model_ids(once));
    lone_features_stay(u, m, once, twice, once.len() as int);
    assert(once.take(once.len() as int) =~= once);
}

/// A line cut in two comes back as one: a piece behind another that it
/// starts at the end of is joined to it, without its first coordinate.
pub proof fn a_cut_line_is_joined<
    U: Fn(Vec<Polygon>, Polygon) -> Vec<Polygon>,
    M: Fn(Coord, Coord) -> bool,
>(u: U, m: M, first: Seq<Coord>, second: Seq<Coord>, r: Option<GeometryModel>)
    requires
        ends_meet(m, first, second),
        fragments_merge(
            u,
            m,
            seq![GeometryModel::LineString(first), GeometryModel::LineString(second)],
            r,
        ),
    ensures
        r == Some(GeometryModel::LineString(first + second.skip(1))),
{
    let parts = seq![GeometryModel::LineString(first), GeometryModel::LineString(second)];
    let ls = fragments::lines_of(parts);
    assert(parts.drop_last() =~= seq![GeometryModel::LineString(first)]);
    assert(parts.drop_last().drop_last() =~= Seq::empty());
    assert(fragments::lines_of(parts.drop_last().drop_last()) =~= Seq::empty());
    assert(fragments::lines_of(parts.drop_last()) =~= seq![first]);
    assert(ls =~= seq![first, second]);
    let table = meetings(m, ls);
    let pending = Seq::new(ls.len(), |i: int| i as usize);
    assert(pending =~= seq![0usize, 1usize]);
    assert(table[0][1]);
    assert(fragments::joins(table, 0, 1));
    let rest = pending.drop_first();
    assert(rest =~= seq![1usize]);
    assert(rest.remove(0) =~= Seq::empty());
    let chain = seq![0usize].push(1usize);
    assert(fragments::next_place(table, rest, 0, 0) == 0);
    assert(fragments::grown(table, chain, Seq::empty()) == (chain, Seq::<usize>::empty()));
    assert(fragments::grown(table, seq![0usize], rest) == (chain, Seq::<usize>::empty()));
    let cs = fragments::chains(table, pending);
    assert(fragments::chains(table, Seq::<usize>::empty()) =~= Seq::empty());
    assert(cs =~= seq![chain]);
    assert(chain.drop_last() =~= seq![0usize]);
    assert(fragments::chained(ls, seq![0usize]) =~= first);
    assert(fragments::chained(ls, chain) =~= first + second.skip(1));
    assert(joined_lines(m, ls) =~= seq![first + second.skip(1)]);
}

// Tiled points.

/// How many of the first `n` tiles hold a place.
pub open spec fn holders(tiles: Seq<Bbox>, c: Coord, n: int) -> nat
    decreases n,
{
    if n <= 0 {
        0
    } else {
        holders(tiles, c, n - 1) + (if geometry::inside(tiles[n - 1], c) {
            1nat
        } else {
            0nat
        })
    }
}

/// Tiles make up a box: one of them holds each place of the box, none any
/// other place.
pub open spec fn tiles_make_up(tiles: Seq<Bbox>, b: Bbox) -> bool {
    forall|c: Coord| #[trigger]
        holders(tiles, c, tiles.len() as int) == (if geometry::inside(b, c) {
            1nat
        } else {
            0nat
        })
}

/// The fragments that the first `n` tiles cut points into.
pub open spec fn point_fragments(cs: Seq<Coord>, tiles: Seq<Bbox>, n: int) -> Seq<GeometryModel>
    decreases n,
{
    if n <= 0 {
        Seq::empty()
    } else {
        point_fragments(cs, tiles, n - 1) + geometry::clipped(
            GeometryModel::MultiPoint(cs),
            tiles[n - 1],
            Seq::empty(),
        )
    }
}

/// The points of a merged geometry.
pub open spec fn points_in(r: Option<GeometryModel>) -> Seq<Coord> {
    match r {
        Some(GeometryModel::Point(c)) => seq![c],
        Some(GeometryModel::MultiPoint(cs)) => cs,
        _ => Seq::empty(),
    }
}

proof fn filtered_counts(cs: Seq<Coord>, b: Bbox, c: Coord)
    ensures
        geometry::kept_points(b, cs).to_multiset().count(c) == (if geometry::inside(b, c) {
            cs.to_multiset().count(c)
        } else {
            0
        }),
    decreases cs.len(),
{
    broadcast use vstd::seq_lib::group_to_multiset_ensures;

    reveal(Seq::filter);
    if cs.len() > 0 {
        let rest = cs.drop_last();
        filtered_counts(rest, b, c);
        assert(cs =~= rest.push(cs.last()));
        let before = geometry::kept_points(b, rest);
        let all = geometry::kept_points(b, cs);
        if geometry::inside(b, cs.last()) {
            assert(all =~= before.push(cs.last()));
        } else {
            assert(all =~= before);
        }
    }
}

proof fn fragments_count(cs: Seq<Coord>, tiles: Seq<Bbox>, n: int, c: Coord)
    requires
        0 <= n <= tiles.len(),
    ensures
        fragments::points_of(point_fragments(cs, tiles, n)).to_multiset().count(c) == holders(
            tiles,
            c,
            n,
        ) * cs.to_multiset().count(c),
        forall|i: int|
            0 <= i < point_fragments(cs, tiles, n).len() ==> #[trigger] point_fragments(
                cs,
                tiles,
                n,
            )[i] is MultiPoint,
    decreases n,
{
    broadcast use vstd::seq_lib::group_to_multiset_ensures;

    let k = cs.to_multiset().count(c);
    if n > 0 {
        fragments_count(cs, tiles, n - 1, c);
        let before = point_fragments(cs, tiles, n - 1);
        let all = point_fragments(cs, tiles, n);
        let kept = geometry::kept_points(tiles[n - 1], cs);
        filtered_counts(cs, tiles[n - 1], c);
        let so_far = fragments::points_of(before);
        if kept.len() == 0 {
            assert(all =~= before);
            assert(kept =~= Seq::empty());
        } else {
            assert(all =~= before.push(GeometryModel::MultiPoint(kept)));
            assert(all.drop_last() =~= before);
            assert(fragments::points_of(all) =~= so_far + kept);
            vstd::seq_lib::lemma_multiset_commutative(so_far, kept);
        }
        let h = holders(tiles, c, n - 1);
        assert((h + 1) * k == h * k + k) by (nonlinear_arith);
    } else {
        assert(0 * k == 0);
        assert(fragments::points_of(Seq::empty()) =~= Seq::empty());
    }
}

/// Points that tiles cut apart come back: what merges of their fragments
/// holds every point of the box that the tiles make up, as often as it was
/// there, and no other.
pub proof fn dissolving_undoes_tiling_of_points<
    U: Fn(Vec<Polygon>, Polygon) -> Vec<Polygon>,
    M: Fn(Coord, Coord) -> bool,
>(u: U, m: M, cs: Seq<Coord>, tiles: Seq<Bbox>, b: Bbox, r: Option<GeometryModel>)
    requires
        tiles_make_up(tiles, b),
        fragments_merge(u, m, point_fragments(cs, tiles, tiles.len() as int), r),
    ensures
        points_in(r).to_multiset() == geometry::kept_points(b, cs).to_multiset(),
{
    broadcast use vstd::seq_lib::group_to_multiset_ensures;

    let n = tiles.len() as int;
    let parts = point_fragments(cs, tiles, n);
    let back = fragments::points_of(parts);
    assert forall|c: Coord| back.to_multiset().count(c) == #[trigger] geometry::kept_points(
        b,
        cs,
    ).to_multiset().count(c) by {
        fragments_count(cs, tiles, n, c);
        filtered_counts(cs, b, c);
        let k = cs.to_multiset().count(c);
        assert(holders(tiles, c, n) == (if geometry::inside(b, c) {
            1nat
        } else {
            0nat
        }));
        assert(1 * k == k && 0 * k == 0);
    }
    assert(back.to_multiset() =~= geometry::kept_points(b, cs).to_multiset());
    fragments_count(cs, tiles, n, Coord { x: b.min_x, y: b.min_y });
    if parts.len() == 0 {
        assert(points_in(r) =~= back);
    } else {
        assert(parts[0] is MultiPoint);
        if parts.len() == 1 {
            assert(parts.drop_last() =~= Seq::empty());
            assert(fragments::points_of(parts.drop_last()) =~= Seq::empty());
            assert(back =~= points_in(r));
        } else {
            assert(points_in(r) =~= back);
        }
    }
}

} // verus!
