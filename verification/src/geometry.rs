//! Walking geometries: their coordinates in order, rebuilding from other
//! coordinates, and clipping to a tile window.
//!
//! The cut of a single line or ring against a rectangle is computed
//! outside. Here stands what becomes of the pieces: which are kept, and
//! how they go together again.

use vstd::prelude::*;

use crate::chunk;
use crate::chunk::{Coord, FeatureGeometry, GeometryModel, Polygon, PolygonModel};
use crate::number::Real;
use crate::window::Bbox;

verus! {

/// Lists joined, one behind the other.
pub open spec fn flat<T>(ls: Seq<Seq<T>>) -> Seq<T>
    decreases ls.len(),
{
    if ls.len() == 0 {
        Seq::empty()
    } else {
        flat(ls.drop_last()) + ls.last()
    }
}

pub open spec fn polygon_coords(p: PolygonModel) -> Seq<Coord> {
    p.exterior + flat(p.interiors)
}

pub open spec fn polygons_coords(ps: Seq<PolygonModel>) -> Seq<Coord>
    decreases ps.len(),
{
    if ps.len() == 0 {
        Seq::empty()
    } else {
        polygons_coords(ps.drop_last()) + polygon_coords(ps.last())
    }
}

/// The coordinates of a geometry in order.
pub open spec fn coords_of(g: GeometryModel) -> Seq<Coord>
    decreases g,
{
    match g {
        GeometryModel::Point(c) => seq![c],
        GeometryModel::MultiPoint(cs) => cs,
        GeometryModel::LineString(cs) => cs,
        GeometryModel::MultiLineString(ls) => flat(ls),
        GeometryModel::Polygon(p) => polygon_coords(p),
        GeometryModel::MultiPolygon(ps) => polygons_coords(ps),
        GeometryModel::GeometryCollection(ms) => members_coords(ms),
    }
}

pub open spec fn members_coords(ms: Seq<GeometryModel>) -> Seq<Coord>
    decreases ms,
{
    if ms.len() == 0 {
        Seq::empty()
    } else {
        members_coords(ms.drop_last()) + coords_of(ms.last())
    }
}

fn push_all(out: &mut Vec<Coord>, cs: &Vec<Coord>)
    ensures
        final(out)@ == old(out)@ + cs@,
{
    let ghost start = out@;
    assert(start =~= start + cs@.take(0));
    for i in 0..cs.len()
        invariant
            out@ == start + cs@.take(i as int),
    {
        out.push(cs[i]);
        assert(out@ =~= start + cs@.take(i as int + 1));
    }
    assert(cs@.take(cs@.len() as int) =~= cs@);
}

fn push_lines(out: &mut Vec<Coord>, ls: &Vec<Vec<Coord>>)
    ensures
        final(out)@ == old(out)@ + flat(chunk::lines_model(ls@)),
{
    let ghost start = out@;
    let ghost model = chunk::lines_model(ls@);
    assert(start =~= start + flat(model.take(0)));
    for i in 0..ls.len()
        invariant
            model == chunk::lines_model(ls@),
            out@ == start + flat(model.take(i as int)),
    {
        push_all(out, &ls[i]);
        assert(model.take(i as int + 1).drop_last() =~= model.take(i as int));
        assert(out@ =~= start + flat(model.take(i as int + 1)));
    }
    assert(model.take(model.len() as int) =~= model);
}

fn collect_polygon(p: &Polygon, out: &mut Vec<Coord>)
    ensures
        final(out)@ == old(out)@ + polygon_coords(p@),
{
    let ghost start = out@;
    push_all(out, &p.exterior);
    push_lines(out, &p.interiors);
    assert(out@ =~= start + polygon_coords(p@));
}

/// Append the coordinates of a geometry in order.
pub fn collect_coords(g: &FeatureGeometry, out: &mut Vec<Coord>)
    ensures
        final(out)@ == old(out)@ + coords_of(g@),
    decreases *g,
{
    let ghost start = out@;
    match g {
        FeatureGeometry::Point(c) => {
            out.push(*c);
        },
        FeatureGeometry::MultiPoint(cs) => {
            push_all(out, cs);
        },
        FeatureGeometry::LineString(cs) => {
            push_all(out, cs);
        },
        FeatureGeometry::MultiLineString(ls) => {
            push_lines(out, ls);
        },
        FeatureGeometry::Polygon(p) => {
            collect_polygon(p, out);
        },
        FeatureGeometry::MultiPolygon(ps) => {
            let ghost model = chunk::polygons_model(ps@);
            assert(start =~= start + polygons_coords(model.take(0)));
            for i in 0..ps.len()
                invariant
                    model == chunk::polygons_model(ps@),
                    out@ == start + polygons_coords(model.take(i as int)),
            {
                collect_polygon(&ps[i], out);
                assert(model.take(i as int + 1).drop_last() =~= model.take(i as int));
                assert(out@ =~= start + polygons_coords(model.take(i as int + 1)));
            }
            assert(model.take(model.len() as int) =~= model);
        },
        FeatureGeometry::GeometryCollection(ms) => {
            proof {
                chunk::collection_model(*ms);
            }
            let ghost model = chunk::geometries_model(ms@);
            assert(start =~= start + members_coords(model.take(0)));
            for i in 0..ms.len()
                invariant
                    *g == FeatureGeometry::GeometryCollection(*ms),
                    model == chunk::geometries_model(ms@),
                    out@ == start + members_coords(model.take(i as int)),
            {
                assert(decreases_to!(*g => g->GeometryCollection_0));
                assert(decreases_to!(*ms => ms@[i as int]));
                collect_coords(&ms[i], out);
                assert(model.take(i as int + 1).drop_last() =~= model.take(i as int));
                assert(out@ =~= start + members_coords(model.take(i as int + 1)));
            }
            assert(model.take(model.len() as int) =~= model);
        },
    }
    assert(out@ =~= start + coords_of(g@));
}

/// All coordinates of a geometry.
pub fn all_coords(g: &FeatureGeometry) -> (r: Vec<Coord>)
    ensures
        r@ == coords_of(g@),
{
    let mut r: Vec<Coord> = Vec::new();
    collect_coords(g, &mut r);
    assert(r@ =~= coords_of(g@));
    r
}

/// How many coordinates a geometry has.
pub fn geometry_coord_count(g: &FeatureGeometry) -> (n: usize)
    ensures
        n == coords_of(g@).len(),
{
    all_coords(g).len()
}

/// The smallest box around some coordinates: from an empty box, widened by
/// each in turn.
pub open spec fn box_around(cs: Seq<Coord>) -> Bbox
    decreases cs.len(),
{
    if cs.len() == 0 {
        Bbox {
            min_x: Real { bits: crate::number::INFINITY_BITS },
            min_y: Real { bits: crate::number::INFINITY_BITS },
            max_x: Real {
                bits: (crate::number::SIGN_BIT + crate::number::INFINITY_BITS) as u64,
            },
            max_y: Real {
                bits: (crate::number::SIGN_BIT + crate::number::INFINITY_BITS) as u64,
            },
        }
    } else {
        let b = box_around(cs.drop_last());
        let c = cs.last();
        Bbox {
            min_x: b.min_x.smaller(c.x),
            min_y: b.min_y.smaller(c.y),
            max_x: b.max_x.larger(c.x),
            max_y: b.max_y.larger(c.y),
        }
    }
}

/// The envelope of a geometry.
pub fn geometry_envelope(g: &FeatureGeometry) -> (r: Bbox)
    ensures
        r == box_around(coords_of(g@)),
{
    let cs = all_coords(g);
    let mut b = Bbox {
        min_x: Real::infinity(),
        min_y: Real::infinity(),
        max_x: Real::neg_infinity(),
        max_y: Real::neg_infinity(),
    };
    for i in 0..cs.len()
        invariant
            b == box_around(cs@.take(i as int)),
    {
        let c = cs[i];
        assert(cs@.take(i as int + 1).drop_last() =~= cs@.take(i as int));
        b = Bbox {
            min_x: b.min_x.min(c.x),
            min_y: b.min_y.min(c.y),
            max_x: b.max_x.max(c.x),
            max_y: b.max_y.max(c.y),
        };
    }
    assert(cs@.take(cs@.len() as int) =~= cs@);
    b
}

// Rebuilding.

/// Lines of the same lengths out of other coordinates.
pub open spec fn relined(ls: Seq<Seq<Coord>>, src: Seq<Coord>) -> Seq<Seq<Coord>>
    decreases ls.len(),
{
    if ls.len() == 0 {
        Seq::empty()
    } else {
        let n = flat(ls.drop_last()).len() as int;
        relined(ls.drop_last(), src.take(n)).push(src.skip(n))
    }
}

pub open spec fn repolygon(p: PolygonModel, src: Seq<Coord>) -> PolygonModel {
    PolygonModel {
        exterior: src.take(p.exterior.len() as int),
        interiors: relined(p.interiors, src.skip(p.exterior.len() as int)),
    }
}

pub open spec fn repolygons(ps: Seq<PolygonModel>, src: Seq<Coord>) -> Seq<PolygonModel>
    decreases ps.len(),
{
    if ps.len() == 0 {
        Seq::empty()
    } else {
        let n = polygons_coords(ps.drop_last()).len() as int;
        repolygons(ps.drop_last(), src.take(n)).push(repolygon(ps.last(), src.skip(n)))
    }
}

/// A geometry of the same shape out of other coordinates, as many as it
/// has itself.
pub open spec fn rebuilt(g: GeometryModel, src: Seq<Coord>) -> GeometryModel
    decreases g,
{
    match g {
        GeometryModel::Point(_) => GeometryModel::Point(src[0]),
        GeometryModel::MultiPoint(_) => GeometryModel::MultiPoint(src),
        GeometryModel::LineString(_) => GeometryModel::LineString(src),
        GeometryModel::MultiLineString(ls) => GeometryModel::MultiLineString(relined(ls, src)),
        GeometryModel::Polygon(p) => GeometryModel::Polygon(repolygon(p, src)),
        GeometryModel::MultiPolygon(ps) => GeometryModel::MultiPolygon(repolygons(ps, src)),
        GeometryModel::GeometryCollection(ms) => GeometryModel::GeometryCollection(
            members_rebuilt(ms, src),
        ),
    }
}

pub open spec fn members_rebuilt(ms: Seq<GeometryModel>, src: Seq<Coord>) -> Seq<GeometryModel>
    decreases ms,
{
    if ms.len() == 0 {
        Seq::empty()
    } else {
        let n = members_coords(ms.drop_last()).len() as int;
        members_rebuilt(ms.drop_last(), src.take(n)).push(rebuilt(ms.last(), src.skip(n)))
    }
}

fn take_coords(src: &Vec<Coord>, from: usize, n: usize) -> (r: Vec<Coord>)
    requires
        from + n <= src@.len(),
    ensures
        r@ == src@.subrange(from as int, from + n),
{
    let len: usize = src.len();
    let mut r: Vec<Coord> = Vec::new();
    for i in 0..n
        invariant
            len == src@.len(),
            from + n <= len,
            r@ == src@.subrange(from as int, from + i),
    {
        r.push(src[from + i]);
        assert(r@ =~= src@.subrange(from as int, from + i + 1));
    }
    r
}

fn rebuild_lines(ls: &Vec<Vec<Coord>>, src: &Vec<Coord>, from: usize) -> (r: (
    Vec<Vec<Coord>>,
    usize,
))
    requires
        from + flat(chunk::lines_model(ls@)).len() <= src@.len(),
    ensures
        r.1 == from + flat(chunk::lines_model(ls@)).len(),
        chunk::lines_model(r.0@) == relined(
            chunk::lines_model(ls@),
            src@.subrange(from as int, r.1 as int),
        ),
{
    let ghost model = chunk::lines_model(ls@);
    let len: usize = src.len();
    let mut out: Vec<Vec<Coord>> = Vec::new();
    let mut at: usize = from;
    assert(model.take(model.len() as int) =~= model);
    assert(chunk::lines_model(out@) =~= relined(
        model.take(0),
        src@.subrange(from as int, from as int),
    ));
    for i in 0..ls.len()
        invariant
            model == chunk::lines_model(ls@),
            len == src@.len(),
            model.take(model.len() as int) == model,
            from + flat(model).len() <= src@.len(),
            at == from + flat(model.take(i as int)).len(),
            chunk::lines_model(out@) == relined(
                model.take(i as int),
                src@.subrange(from as int, at as int),
            ),
    {
        let n: usize = ls[i].len();
        let ghost before = chunk::lines_model(out@);
        proof {
            assert(model.take(i as int + 1).drop_last() =~= model.take(i as int));
            flat_grows(model, i as int + 1);
        }
        let line = take_coords(src, at, n);
        let ghost line_coords = line@;
        out.push(line);
        proof {
            let so_far = src@.subrange(from as int, at + n);
            assert(so_far.take(at - from) =~= src@.subrange(from as int, at as int));
            assert(so_far.skip(at - from) =~= line_coords);
            assert(chunk::lines_model(out@) =~= before.push(line_coords));
        }
        assert(at + n <= len);
        at = at + n;
    }
    (out, at)
}

proof fn flat_grows<T>(ls: Seq<Seq<T>>, i: int)
    requires
        0 <= i <= ls.len(),
    ensures
        flat(ls.take(i)).len() <= flat(ls).len(),
    decreases ls.len(),
{
    if i < ls.len() {
        assert(ls.drop_last().take(i) =~= ls.take(i));
        flat_grows(ls.drop_last(), i);
    } else {
        assert(ls.take(i) =~= ls);
    }
}

fn rebuild_polygon(p: &Polygon, src: &Vec<Coord>, from: usize) -> (r: (Polygon, usize))
    requires
        from + polygon_coords(p@).len() <= src@.len(),
    ensures
        r.1 == from + polygon_coords(p@).len(),
        r.0@ == repolygon(p@, src@.subrange(from as int, r.1 as int)),
{
    let len: usize = src.len();
    let n: usize = p.exterior.len();
    assert(from + n <= len);
    let exterior = take_coords(src, from, n);
    let (interiors, end) = rebuild_lines(&p.interiors, src, from + n);
    proof {
        let all = src@.subrange(from as int, end as int);
        assert(all.take(n as int) =~= exterior@);
        assert(all.skip(n as int) =~= src@.subrange(from + n, end as int));
    }
    (Polygon { exterior, interiors }, end)
}

proof fn polygons_grow(ps: Seq<PolygonModel>, i: int)
    requires
        0 <= i <= ps.len(),
    ensures
        polygons_coords(ps.take(i)).len() <= polygons_coords(ps).len(),
    decreases ps.len(),
{
    if i < ps.len() {
        assert(ps.drop_last().take(i) =~= ps.take(i));
        polygons_grow(ps.drop_last(), i);
    } else {
        assert(ps.take(i) =~= ps);
    }
}

proof fn members_grow(ms: Seq<GeometryModel>, i: int)
    requires
        0 <= i <= ms.len(),
    ensures
        members_coords(ms.take(i)).len() <= members_coords(ms).len(),
    decreases ms.len(),
{
    if i < ms.len() {
        assert(ms.drop_last().take(i) =~= ms.take(i));
        members_grow(ms.drop_last(), i);
    } else {
        assert(ms.take(i) =~= ms);
    }
}

/// A geometry of the same shape out of other coordinates, read from a
/// place on; the place behind the last one comes back.
pub fn rebuild(g: &FeatureGeometry, src: &Vec<Coord>, from: usize) -> (r: (FeatureGeometry, usize))
    requires
        from + coords_of(g@).len() <= src@.len(),
    ensures
        r.1 == from + coords_of(g@).len(),
        r.0@ == rebuilt(g@, src@.subrange(from as int, r.1 as int)),
    decreases *g,
{
    let len: usize = src.len();
    match g {
        FeatureGeometry::Point(_) => {
            assert(src@.subrange(from as int, from + 1)[0] == src@[from as int]);
            (FeatureGeometry::Point(src[from]), from + 1)
        },
        FeatureGeometry::MultiPoint(cs) => {
            let n: usize = cs.len();
            (FeatureGeometry::MultiPoint(take_coords(src, from, n)), from + n)
        },
        FeatureGeometry::LineString(cs) => {
            let n: usize = cs.len();
            (FeatureGeometry::LineString(take_coords(src, from, n)), from + n)
        },
        FeatureGeometry::MultiLineString(ls) => {
            let (lines, end) = rebuild_lines(ls, src, from);
            (FeatureGeometry::MultiLineString(lines), end)
        },
        FeatureGeometry::Polygon(p) => {
            let (q, end) = rebuild_polygon(p, src, from);
            (FeatureGeometry::Polygon(q), end)
        },
        FeatureGeometry::MultiPolygon(ps) => {
            let ghost model = chunk::polygons_model(ps@);
            assert(g@ == GeometryModel::MultiPolygon(model));
            let mut out: Vec<Polygon> = Vec::new();
            let mut at: usize = from;
            assert(model.take(model.len() as int) =~= model);
            assert(chunk::polygons_model(out@) =~= repolygons(
                model.take(0),
                src@.subrange(from as int, from as int),
            ));
            for i in 0..ps.len()
                invariant
                    model == chunk::polygons_model(ps@),
                    model.take(model.len() as int) == model,
                    from + polygons_coords(model).len() <= src@.len(),
                    at == from + polygons_coords(model.take(i as int)).len(),
                    chunk::polygons_model(out@) == repolygons(
                        model.take(i as int),
                        src@.subrange(from as int, at as int),
                    ),
            {
                let ghost before = chunk::polygons_model(out@);
                proof {
                    assert(model.take(i as int + 1).drop_last() =~= model.take(i as int));
                    polygons_grow(model, i as int + 1);
                }
                let (q, end) = rebuild_polygon(&ps[i], src, at);
                out.push(q);
                proof {
                    let so_far = src@.subrange(from as int, end as int);
                    assert(so_far.take(at - from) =~= src@.subrange(from as int, at as int));
                    assert(so_far.skip(at - from) =~= src@.subrange(at as int, end as int));
                    assert(chunk::polygons_model(out@) =~= before.push(q@));
                }
                at = end;
            }
            (FeatureGeometry::MultiPolygon(out), at)
        },
        FeatureGeometry::GeometryCollection(ms) => {
            proof {
                chunk::collection_model(*ms);
            }
            let ghost model = chunk::geometries_model(ms@);
            assert(g@ == GeometryModel::GeometryCollection(model));
            let mut out: Vec<FeatureGeometry> = Vec::new();
            let mut at: usize = from;
            assert(model.take(model.len() as int) =~= model);
            assert(chunk::geometries_model(out@) =~= members_rebuilt(
                model.take(0),
                src@.subrange(from as int, from as int),
            ));
            for i in 0..ms.len()
                invariant
                    *g == FeatureGeometry::GeometryCollection(*ms),
                    model == chunk::geometries_model(ms@),
                    model.take(model.len() as int) == model,
                    from + members_coords(model).len() <= src@.len(),
                    at == from + members_coords(model.take(i as int)).len(),
                    chunk::geometries_model(out@) == members_rebuilt(
                        model.take(i as int),
                        src@.subrange(from as int, at as int),
                    ),
            {
                let ghost before = chunk::geometries_model(out@);
                proof {
                    assert(model.take(i as int + 1).drop_last() =~= model.take(i as int));
                    members_grow(model, i as int + 1);
                }
                assert(decreases_to!(*g => g->GeometryCollection_0));
                assert(decreases_to!(*ms => ms@[i as int]));
                let (q, end) = rebuild(&ms[i], src, at);
                out.push(q);
                proof {
                    let so_far = src@.subrange(from as int, end as int);
                    assert(so_far.take(at - from) =~= src@.subrange(from as int, at as int));
                    assert(so_far.skip(at - from) =~= src@.subrange(at as int, end as int));
                    assert(chunk::geometries_model(out@) =~= before.push(q@));
                }
                at = end;
            }
            proof {
                chunk::collection_model(out);
            }
            (FeatureGeometry::GeometryCollection(out), at)
        },
    }
}

proof fn lines_come_back(ls: Seq<Seq<Coord>>)
    ensures
        relined(ls, flat(ls)) == ls,
    decreases ls.len(),
{
    if ls.len() > 0 {
        let rest = ls.drop_last();
        lines_come_back(rest);
        let n = flat(rest).len() as int;
        assert(flat(ls).take(n) =~= flat(rest));
        assert(flat(ls).skip(n) =~= ls.last());
        assert(rest.push(ls.last()) =~= ls);
    } else {
        assert(relined(ls, flat(ls)) =~= ls);
    }
}

proof fn polygon_comes_back(p: PolygonModel)
    ensures
        repolygon(p, polygon_coords(p)) == p,
{
    let n = p.exterior.len() as int;
    lines_come_back(p.interiors);
    assert(polygon_coords(p).take(n) =~= p.exterior);
    assert(polygon_coords(p).skip(n) =~= flat(p.interiors));
}

proof fn polygons_come_back(ps: Seq<PolygonModel>)
    ensures
        repolygons(ps, polygons_coords(ps)) == ps,
    decreases ps.len(),
{
    if ps.len() > 0 {
        let rest = ps.drop_last();
        polygons_come_back(rest);
        polygon_comes_back(ps.last());
        let n = polygons_coords(rest).len() as int;
        assert(polygons_coords(ps).take(n) =~= polygons_coords(rest));
        assert(polygons_coords(ps).skip(n) =~= polygon_coords(ps.last()));
        assert(rest.push(ps.last()) =~= ps);
    } else {
        assert(repolygons(ps, polygons_coords(ps)) =~= ps);
    }
}

/// A geometry rebuilt from its own coordinates is itself.
pub proof fn rebuilding_undoes_collecting(g: GeometryModel)
    ensures
        rebuilt(g, coords_of(g)) == g,
    decreases g,
{
    match g {
        GeometryModel::Point(c) => {},
        GeometryModel::MultiLineString(ls) => {
            lines_come_back(ls);
        },
        GeometryModel::Polygon(p) => {
            polygon_comes_back(p);
        },
        GeometryModel::MultiPolygon(ps) => {
            polygons_come_back(ps);
        },
        GeometryModel::GeometryCollection(ms) => {
            members_come_back(ms);
        },
        _ => {},
    }
}

proof fn members_come_back(ms: Seq<GeometryModel>)
    ensures
        members_rebuilt(ms, members_coords(ms)) == ms,
    decreases ms,
{
    if ms.len() > 0 {
        let rest = ms.drop_last();
        members_come_back(rest);
        rebuilding_undoes_collecting(ms.last());
        let n = members_coords(rest).len() as int;
        assert(members_coords(ms).take(n) =~= members_coords(rest));
        assert(members_coords(ms).skip(n) =~= coords_of(ms.last()));
        assert(rest.push(ms.last()) =~= ms);
    } else {
        assert(members_rebuilt(ms, members_coords(ms)) =~= ms);
    }
}

proof fn lines_hold_all(ls: Seq<Seq<Coord>>, src: Seq<Coord>)
    requires
        src.len() == flat(ls).len(),
    ensures
        flat(relined(ls, src)) == src,
    decreases ls.len(),
{
    if ls.len() > 0 {
        let n = flat(ls.drop_last()).len() as int;
        lines_hold_all(ls.drop_last(), src.take(n));
        let before = relined(ls.drop_last(), src.take(n));
        assert(before.push(src.skip(n)).drop_last() =~= before);
        assert(src.take(n) + src.skip(n) =~= src);
    } else {
        assert(src =~= Seq::empty());
    }
}

proof fn polygon_holds_all(p: PolygonModel, src: Seq<Coord>)
    requires
        src.len() == polygon_coords(p).len(),
    ensures
        polygon_coords(repolygon(p, src)) == src,
{
    let n = p.exterior.len() as int;
    lines_hold_all(p.interiors, src.skip(n));
    assert(src.take(n) + src.skip(n) =~= src);
}

proof fn polygons_hold_all(ps: Seq<PolygonModel>, src: Seq<Coord>)
    requires
        src.len() == polygons_coords(ps).len(),
    ensures
        polygons_coords(repolygons(ps, src)) == src,
    decreases ps.len(),
{
    if ps.len() > 0 {
        let n = polygons_coords(ps.drop_last()).len() as int;
        polygons_hold_all(ps.drop_last(), src.take(n));
        polygon_holds_all(ps.last(), src.skip(n));
        let before = repolygons(ps.drop_last(), src.take(n));
        assert(before.push(repolygon(ps.last(), src.skip(n))).drop_last() =~= before);
        assert(src.take(n) + src.skip(n) =~= src);
    } else {
        assert(src =~= Seq::empty());
    }
}

/// A rebuilt geometry has exactly the coordinates it was built from, in
/// order.
pub proof fn collecting_undoes_rebuilding(g: GeometryModel, src: Seq<Coord>)
    requires
        src.len() == coords_of(g).len(),
    ensures
        coords_of(rebuilt(g, src)) == src,
    decreases g,
{
    match g {
        GeometryModel::Point(c) => {
            assert(seq![src[0]] =~= src);
        },
        GeometryModel::MultiLineString(ls) => {
            lines_hold_all(ls, src);
        },
        GeometryModel::Polygon(p) => {
            polygon_holds_all(p, src);
        },
        GeometryModel::MultiPolygon(ps) => {
            polygons_hold_all(ps, src);
        },
        GeometryModel::GeometryCollection(ms) => {
            members_hold_all(ms, src);
        },
        _ => {},
    }
}

proof fn members_hold_all(ms: Seq<GeometryModel>, src: Seq<Coord>)
    requires
        src.len() == members_coords(ms).len(),
    ensures
        members_coords(members_rebuilt(ms, src)) == src,
    decreases ms,
{
    if ms.len() > 0 {
        let n = members_coords(ms.drop_last()).len() as int;
        members_hold_all(ms.drop_last(), src.take(n));
        collecting_undoes_rebuilding(ms.last(), src.skip(n));
        let before = members_rebuilt(ms.drop_last(), src.take(n));
        assert(before.push(rebuilt(ms.last(), src.skip(n))).drop_last() =~= before);
        assert(src.take(n) + src.skip(n) =~= src);
    } else {
        assert(src =~= Seq::empty());
    }
}

// Clipping.

/// Tile membership: the left and the top edge are in, the right and the
/// bottom edge are out.
pub open spec fn inside(b: Bbox, c: Coord) -> bool {
    b.min_x.at_most(c.x) && c.x.below(b.max_x) && b.min_y.below(c.y) && c.y.at_most(b.max_y)
}

/// Whether a tile holds a point.
pub fn tile_contains(b: &Bbox, x: Real, y: Real) -> (r: bool)
    ensures
        r == inside(*b, Coord { x, y }),
{
    b.min_x.le(x) && x.lt(b.max_x) && b.min_y.lt(y) && y.le(b.max_y)
}

/// Two tiles side by side hold each point of the box they make up exactly
/// once.
pub proof fn columns_share_no_point(b: Bbox, seam: Real, c: Coord)
    requires
        b.min_x.at_most(seam),
        seam.at_most(b.max_x),
    ensures
        inside(b, c) == (inside(Bbox { max_x: seam, ..b }, c) || inside(
            Bbox { min_x: seam, ..b },
            c,
        )),
        !(inside(Bbox { max_x: seam, ..b }, c) && inside(Bbox { min_x: seam, ..b }, c)),
{
}

/// Two tiles one above the other hold each point of the box they make up
/// exactly once.
pub proof fn rows_share_no_point(b: Bbox, seam: Real, c: Coord)
    requires
        b.min_y.at_most(seam),
        seam.at_most(b.max_y),
    ensures
        inside(b, c) == (inside(Bbox { max_y: seam, ..b }, c) || inside(
            Bbox { min_y: seam, ..b },
            c,
        )),
        !(inside(Bbox { max_y: seam, ..b }, c) && inside(Bbox { min_y: seam, ..b }, c)),
{
}

/// The coordinates that a tile holds, in order.
pub open spec fn kept_points(b: Bbox, cs: Seq<Coord>) -> Seq<Coord> {
    cs.filter(|c: Coord| inside(b, c))
}

/// A piece of a line that a tile keeps: it has length and does not lie on
/// an edge that belongs to a neighbour.
pub open spec fn keeps_part(b: Bbox, part: Seq<Coord>) -> bool {
    &&& part.len() >= 2
    &&& exists|i: int| 0 <= i < part.len() && !(#[trigger] part[i]).x.equals(b.max_x)
    &&& exists|i: int| 0 <= i < part.len() && !(#[trigger] part[i]).y.equals(b.min_y)
}

pub open spec fn kept_parts(b: Bbox, parts: Seq<Seq<Coord>>) -> Seq<Seq<Coord>> {
    parts.filter(|p: Seq<Coord>| keeps_part(b, p))
}

/// A cut ring: the first piece, none where there is none.
pub open spec fn ring_piece(pieces: Seq<Seq<Coord>>) -> Seq<Coord> {
    if pieces.len() == 0 {
        Seq::empty()
    } else {
        pieces[0]
    }
}

/// The cut rings that still enclose something, `least` coordinates or more.
pub open spec fn kept_rings(pieces: Seq<Seq<Seq<Coord>>>, least: int) -> Seq<Seq<Coord>>
    decreases pieces.len(),
{
    if pieces.len() == 0 {
        Seq::empty()
    } else {
        let before = kept_rings(pieces.drop_last(), least);
        let ring = ring_piece(pieces.last());
        if ring.len() >= least {
            before.push(ring)
        } else {
            before
        }
    }
}

/// A polygon out of its cut rings, gone where its outer ring is.
pub open spec fn recut_polygon(pieces: Seq<Seq<Seq<Coord>>>, least: int) -> Option<PolygonModel> {
    if ring_piece(pieces[0]).len() < least {
        None
    } else {
        Some(
            PolygonModel {
                exterior: ring_piece(pieces[0]),
                interiors: kept_rings(pieces.drop_first(), least),
            },
        )
    }
}

/// How many rings a polygon has.
pub open spec fn ring_count(p: PolygonModel) -> int {
    1 + p.interiors.len() as int
}

pub open spec fn rings_of(ps: Seq<PolygonModel>) -> int
    decreases ps.len(),
{
    if ps.len() == 0 {
        0
    } else {
        rings_of(ps.drop_last()) + ring_count(ps.last())
    }
}

pub open spec fn recut_polygons(
    ps: Seq<PolygonModel>,
    pieces: Seq<Seq<Seq<Coord>>>,
    least: int,
) -> Seq<PolygonModel>
    decreases ps.len(),
{
    if ps.len() == 0 {
        Seq::empty()
    } else {
        let n = rings_of(ps.drop_last());
        let before = recut_polygons(ps.drop_last(), pieces.take(n), least);
        match recut_polygon(pieces.skip(n), least) {
            Some(p) => before.push(p),
            None => before,
        }
    }
}

/// How many lines and rings of a geometry are cut one by one.
pub open spec fn cut_count(g: GeometryModel) -> int
    decreases g,
{
    match g {
        GeometryModel::Point(_) => 0,
        GeometryModel::MultiPoint(_) => 0,
        GeometryModel::LineString(_) => 1,
        GeometryModel::MultiLineString(ls) => ls.len() as int,
        GeometryModel::Polygon(p) => ring_count(p),
        GeometryModel::MultiPolygon(ps) => rings_of(ps),
        GeometryModel::GeometryCollection(ms) => members_cuts(ms),
    }
}

pub open spec fn members_cuts(ms: Seq<GeometryModel>) -> int
    decreases ms,
{
    if ms.len() == 0 {
        0
    } else {
        members_cuts(ms.drop_last()) + cut_count(ms.last())
    }
}

pub open spec fn lines_as_geometries(ls: Seq<Seq<Coord>>) -> Seq<GeometryModel> {
    Seq::new(ls.len(), |i: int| GeometryModel::LineString(ls[i]))
}

/// What is left of a geometry in a tile, given the pieces of each of its
/// lines and rings. A multi geometry or a collection stays one fragment; a
/// line falls apart where it leaves the tile.
pub open spec fn clipped(
    g: GeometryModel,
    b: Bbox,
    pieces: Seq<Seq<Seq<Coord>>>,
) -> Seq<GeometryModel>
    decreases g,
{
    match g {
        GeometryModel::Point(c) => if inside(b, c) {
            seq![g]
        } else {
            Seq::empty()
        },
        GeometryModel::MultiPoint(cs) => if kept_points(b, cs).len() == 0 {
            Seq::empty()
        } else {
            seq![GeometryModel::MultiPoint(kept_points(b, cs))]
        },
        GeometryModel::LineString(_) => lines_as_geometries(kept_parts(b, pieces[0])),
        GeometryModel::MultiLineString(ls) => {
            let parts = kept_parts(b, flat(pieces));
            if parts.len() == 0 {
                Seq::empty()
            } else {
                seq![GeometryModel::MultiLineString(parts)]
            }
        },
        GeometryModel::Polygon(_) => match recut_polygon(pieces, 3) {
            Some(p) => seq![GeometryModel::Polygon(p)],
            None => Seq::empty(),
        },
        GeometryModel::MultiPolygon(ps) => {
            let kept = recut_polygons(ps, pieces, 3);
            if kept.len() == 0 {
                Seq::empty()
            } else {
                seq![GeometryModel::MultiPolygon(kept)]
            }
        },
        GeometryModel::GeometryCollection(ms) => {
            let kept = members_clipped(ms, b, pieces);
            if kept.len() == 0 {
                Seq::empty()
            } else {
                seq![GeometryModel::GeometryCollection(kept)]
            }
        },
    }
}

pub open spec fn members_clipped(
    ms: Seq<GeometryModel>,
    b: Bbox,
    pieces: Seq<Seq<Seq<Coord>>>,
) -> Seq<GeometryModel>
    decreases ms,
{
    if ms.len() == 0 {
        Seq::empty()
    } else {
        let n = members_cuts(ms.drop_last());
        members_clipped(ms.drop_last(), b, pieces.take(n)) + clipped(ms.last(), b, pieces.skip(n))
    }
}

/// The pieces behind nested vectors.
pub open spec fn pieces_model(v: Seq<Vec<Vec<Coord>>>) -> Seq<Seq<Seq<Coord>>> {
    Seq::new(v.len(), |i: int| chunk::lines_model(v[i]@))
}

pub fn copy_coords(cs: &Vec<Coord>) -> (r: Vec<Coord>)
    ensures
        r@ == cs@,
{
    let mut r: Vec<Coord> = Vec::new();
    push_all(&mut r, cs);
    assert(r@ =~= cs@);
    r
}

fn keep_part(b: &Bbox, part: &Vec<Coord>) -> (r: bool)
    ensures
        r == keeps_part(*b, part@),
{
    if part.len() < 2 {
        return false;
    }
    let mut off_x: bool = false;
    let mut off_y: bool = false;
    for i in 0..part.len()
        invariant
            off_x == (exists|k: int| 0 <= k < i && !(#[trigger] part@[k]).x.equals(b.max_x)),
            off_y == (exists|k: int| 0 <= k < i && !(#[trigger] part@[k]).y.equals(b.min_y)),
    {
        let c = part[i];
        if !c.x.eq_num(b.max_x) {
            off_x = true;
            assert(!part@[i as int].x.equals(b.max_x));
        }
        if !c.y.eq_num(b.min_y) {
            off_y = true;
            assert(!part@[i as int].y.equals(b.min_y));
        }
    }
    off_x && off_y
}

fn keep_parts(b: &Bbox, parts: &Vec<Vec<Coord>>, out: &mut Vec<Vec<Coord>>)
    ensures
        chunk::lines_model(final(out)@) == chunk::lines_model(old(out)@) + kept_parts(
            *b,
            chunk::lines_model(parts@),
        ),
{
    let ghost start = chunk::lines_model(out@);
    let ghost model = chunk::lines_model(parts@);
    proof {
        reveal(Seq::filter);
        assert(start =~= start + kept_parts(*b, model.take(0)));
    }
    for i in 0..parts.len()
        invariant
            model == chunk::lines_model(parts@),
            chunk::lines_model(out@) == start + kept_parts(*b, model.take(i as int)),
    {
        let ghost before = chunk::lines_model(out@);
        proof {
            reveal(Seq::filter);
            assert(model.take(i as int + 1).drop_last() =~= model.take(i as int));
        }
        if keep_part(b, &parts[i]) {
            let part = copy_coords(&parts[i]);
            let ghost kept = part@;
            out.push(part);
            assert(chunk::lines_model(out@) =~= before.push(kept));
        }
        assert(chunk::lines_model(out@) =~= start + kept_parts(*b, model.take(i as int + 1)));
    }
    assert(model.take(model.len() as int) =~= model);
}

pub fn first_piece(pieces: &Vec<Vec<Coord>>) -> (r: Vec<Coord>)
    ensures
        r@ == ring_piece(chunk::lines_model(pieces@)),
{
    if pieces.len() == 0 {
        Vec::new()
    } else {
        copy_coords(&pieces[0])
    }
}

pub fn polygon_from(
    pieces: &Vec<Vec<Vec<Coord>>>,
    from: usize,
    rings: usize,
    least: usize,
) -> (r: Option<Polygon>)
    requires
        rings >= 1,
        from + rings <= pieces@.len(),
    ensures
        match recut_polygon(
            pieces_model(pieces@).subrange(from as int, from + rings),
            least as int,
        ) {
            Some(p) => r matches Some(q) && q@ == p,
            None => r is None,
        },
{
    let len: usize = pieces.len();
    let ghost all = pieces_model(pieces@);
    let ghost own = all.subrange(from as int, from + rings);
    assert(own[0] == all[from as int]);
    let exterior = first_piece(&pieces[from]);
    if exterior.len() < least {
        return None;
    }
    let mut interiors: Vec<Vec<Coord>> = Vec::new();
    assert(chunk::lines_model(interiors@) =~= kept_rings(
        own.drop_first().take(0),
        least as int,
    ));
    for i in 1..rings
        invariant
            len == pieces@.len(),
            from + rings <= len,
            all == pieces_model(pieces@),
            own == all.subrange(from as int, from + rings),
            chunk::lines_model(interiors@) == kept_rings(
                own.drop_first().take(i - 1),
                least as int,
            ),
    {
        let ghost before = chunk::lines_model(interiors@);
        let ring = first_piece(&pieces[from + i]);
        let ghost kept = ring@;
        proof {
            assert(own.drop_first()[i - 1] == all[from + i]);
            assert(own.drop_first().take(i as int).drop_last() =~= own.drop_first().take(i - 1));
        }
        if ring.len() >= least {
            interiors.push(ring);
            assert(chunk::lines_model(interiors@) =~= before.push(kept));
        }
    }
    assert(own.drop_first().take(rings - 1) =~= own.drop_first());
    Some(Polygon { exterior, interiors })
}

proof fn rings_grow(ps: Seq<PolygonModel>, i: int)
    requires
        0 <= i <= ps.len(),
    ensures
        0 <= rings_of(ps.take(i)) <= rings_of(ps),
    decreases ps.len(),
{
    if i < ps.len() {
        assert(ps.drop_last().take(i) =~= ps.take(i));
        rings_grow(ps.drop_last(), i);
    } else {
        assert(ps.take(i) =~= ps);
        if ps.len() > 0 {
            rings_grow(ps.drop_last(), i - 1);
        }
    }
}

pub fn polygons_from(
    ps: &Vec<Polygon>,
    pieces: &Vec<Vec<Vec<Coord>>>,
    from: usize,
    least: usize,
) -> (r: (Vec<Polygon>, usize))
    requires
        from + rings_of(chunk::polygons_model(ps@)) <= pieces@.len(),
    ensures
        r.1 == from + rings_of(chunk::polygons_model(ps@)),
        chunk::polygons_model(r.0@) == recut_polygons(
            chunk::polygons_model(ps@),
            pieces_model(pieces@).subrange(from as int, r.1 as int),
            least as int,
        ),
{
    let len: usize = pieces.len();
    let ghost model = chunk::polygons_model(ps@);
    let ghost all = pieces_model(pieces@);
    let mut out: Vec<Polygon> = Vec::new();
    let mut at: usize = from;
    assert(model.take(model.len() as int) =~= model);
    proof {
        rings_grow(model, 0);
    }
    assert(chunk::polygons_model(out@) =~= recut_polygons(
        model.take(0),
        all.subrange(from as int, from as int),
        least as int,
    ));
    for i in 0..ps.len()
        invariant
            len == pieces@.len(),
            model == chunk::polygons_model(ps@),
            all == pieces_model(pieces@),
            model.take(model.len() as int) == model,
            from + rings_of(model) <= len,
            from <= at,
            at == from + rings_of(model.take(i as int)),
            chunk::polygons_model(out@) == recut_polygons(
                model.take(i as int),
                all.subrange(from as int, at as int),
                least as int,
            ),
    {
        let ghost before = chunk::polygons_model(out@);
        proof {
            assert(model.take(i as int + 1).drop_last() =~= model.take(i as int));
            rings_grow(model, i as int + 1);
        }
        assert(ring_count(model[i as int]) == 1 + ps@[i as int].interiors@.len());
        assert(at + 1 + ps@[i as int].interiors@.len() <= len);
        let rings: usize = 1 + ps[i].interiors.len();
        let q = polygon_from(pieces, at, rings, least);
        proof {
            let so_far = all.subrange(from as int, at + rings);
            assert(so_far.take(at - from) =~= all.subrange(from as int, at as int));
            assert(so_far.skip(at - from) =~= all.subrange(at as int, at + rings));
        }
        if let Some(p) = q {
            let ghost kept = p@;
            out.push(p);
            assert(chunk::polygons_model(out@) =~= before.push(kept));
        }
        at = at + rings;
    }
    (out, at)
}

pub proof fn cuts_grow(ms: Seq<GeometryModel>, i: int)
    requires
        0 <= i <= ms.len(),
    ensures
        0 <= members_cuts(ms.take(i)) <= members_cuts(ms),
    decreases ms, 1int,
{
    if i < ms.len() {
        assert(ms.drop_last().take(i) =~= ms.take(i));
        cuts_grow(ms.drop_last(), i);
        cuts_are_counts(ms.last());
    } else {
        assert(ms.take(i) =~= ms);
        if ms.len() > 0 {
            cuts_grow(ms.drop_last(), i - 1);
            cuts_are_counts(ms.last());
        }
    }
}

pub proof fn cuts_are_counts(g: GeometryModel)
    ensures
        cut_count(g) >= 0,
    decreases g, 0int,
{
    match g {
        GeometryModel::MultiPolygon(ps) => {
            rings_grow(ps, 0);
        },
        GeometryModel::GeometryCollection(ms) => {
            cuts_grow(ms, 0);
        },
        _ => {},
    }
}

/// What is left of a geometry in a tile, given the pieces of each of its
/// lines and rings from a place on; the place behind the last one used
/// comes back.
pub fn clip_geometry(
    g: &FeatureGeometry,
    b: &Bbox,
    pieces: &Vec<Vec<Vec<Coord>>>,
    from: usize,
) -> (r: (Vec<FeatureGeometry>, usize))
    requires
        from + cut_count(g@) <= pieces@.len(),
    ensures
        r.1 == from + cut_count(g@),
        chunk::geometries_model(r.0@) == clipped(
            g@,
            *b,
            pieces_model(pieces@).subrange(from as int, r.1 as int),
        ),
    decreases *g,
{
    let len: usize = pieces.len();
    let ghost all = pieces_model(pieces@);
    let mut out: Vec<FeatureGeometry> = Vec::new();
    let mut at: usize = from;
    proof {
        cuts_are_counts(g@);
    }
    match g {
        FeatureGeometry::Point(c) => {
            if tile_contains(b, c.x, c.y) {
                out.push(FeatureGeometry::Point(*c));
            }
        },
        FeatureGeometry::MultiPoint(cs) => {
            let kept = points_inside(cs, b);
            if kept.len() > 0 {
                out.push(FeatureGeometry::MultiPoint(kept));
            }
        },
        FeatureGeometry::LineString(_) => {
            let mut parts: Vec<Vec<Coord>> = Vec::new();
            keep_parts(b, &pieces[from], &mut parts);
            proof {
                assert(all.subrange(from as int, from + 1)[0] == all[from as int]);
                assert(chunk::lines_model(parts@) =~= kept_parts(*b, all[from as int]));
            }
            for i in 0..parts.len()
                invariant
                    out@.len() == i,
                    forall|k: int|
                        0 <= k < i ==> (#[trigger] out@[k])@ == GeometryModel::LineString(
                            parts@[k]@,
                        ),
            {
                out.push(FeatureGeometry::LineString(copy_coords(&parts[i])));
            }
            at = from + 1;
            assert(chunk::geometries_model(out@) =~= lines_as_geometries(
                chunk::lines_model(parts@),
            ));
        },
        FeatureGeometry::MultiLineString(ls) => {
            let mut parts: Vec<Vec<Coord>> = Vec::new();
            let n: usize = ls.len();
            proof {
                reveal(Seq::filter);
                assert(chunk::lines_model(parts@) =~= kept_parts(
                    *b,
                    flat(all.subrange(from as int, from as int)),
                ));
            }
            for i in 0..n
                invariant
                    len == pieces@.len(),
                    all == pieces_model(pieces@),
                    from + n <= len,
                    chunk::lines_model(parts@) == kept_parts(
                        *b,
                        flat(all.subrange(from as int, from + i)),
                    ),
            {
                keep_parts(b, &pieces[from + i], &mut parts);
                proof {
                    let own = all.subrange(from as int, from + i + 1);
                    assert(own.drop_last() =~= all.subrange(from as int, from + i));
                    assert(own.last() == all[from + i]);
                    Seq::filter_distributes_over_add(
                        flat(own.drop_last()),
                        own.last(),
                        |p: Seq<Coord>| keeps_part(*b, p),
                    );
                }
            }
            at = from + n;
            if parts.len() > 0 {
                out.push(FeatureGeometry::MultiLineString(parts));
            }
        },
        FeatureGeometry::Polygon(p) => {
            assert(from + 1 + p.interiors@.len() <= len);
            let rings: usize = 1 + p.interiors.len();
            at = from + rings;
            if let Some(q) = polygon_from(pieces, from, rings, 3) {
                out.push(FeatureGeometry::Polygon(q));
            }
        },
        FeatureGeometry::MultiPolygon(ps) => {
            let (kept, end) = polygons_from(ps, pieces, from, 3);
            at = end;
            if kept.len() > 0 {
                out.push(FeatureGeometry::MultiPolygon(kept));
            }
        },
        FeatureGeometry::GeometryCollection(ms) => {
            proof {
                chunk::collection_model(*ms);
            }
            let ghost model = chunk::geometries_model(ms@);
            assert(g@ == GeometryModel::GeometryCollection(model));
            let mut kept: Vec<FeatureGeometry> = Vec::new();
            assert(model.take(model.len() as int) =~= model);
            assert(chunk::geometries_model(kept@) =~= members_clipped(
                model.take(0),
                *b,
                all.subrange(from as int, from as int),
            ));
            for i in 0..ms.len()
                invariant
                    *g == FeatureGeometry::GeometryCollection(*ms),
                    all == pieces_model(pieces@),
                    model == chunk::geometries_model(ms@),
                    model.take(model.len() as int) == model,
                    from + members_cuts(model) <= pieces@.len(),
                    from <= at,
                    at == from + members_cuts(model.take(i as int)),
                    chunk::geometries_model(kept@) == members_clipped(
                        model.take(i as int),
                        *b,
                        all.subrange(from as int, at as int),
                    ),
            {
                let ghost before = chunk::geometries_model(kept@);
                proof {
                    assert(model.take(i as int + 1).drop_last() =~= model.take(i as int));
                    cuts_grow(model, i as int + 1);
                    cuts_are_counts(model[i as int]);
                }
                assert(decreases_to!(*g => g->GeometryCollection_0));
                assert(decreases_to!(*ms => ms@[i as int]));
                let (more, end) = clip_geometry(&ms[i], b, pieces, at);
                let mut more = more;
                let ghost added = chunk::geometries_model(more@);
                kept.append(&mut more);
                proof {
                    let so_far = all.subrange(from as int, end as int);
                    assert(so_far.take(at - from) =~= all.subrange(from as int, at as int));
                    assert(so_far.skip(at - from) =~= all.subrange(at as int, end as int));
                    assert(chunk::geometries_model(kept@) =~= before + added);
                }
                at = end;
            }
            proof {
                chunk::collection_model(kept);
            }
            if kept.len() > 0 {
                out.push(FeatureGeometry::GeometryCollection(kept));
            }
        },
    }
    assert(chunk::geometries_model(out@) =~= clipped(
        g@,
        *b,
        all.subrange(from as int, at as int),
    ));
    (out, at)
}

fn points_inside(cs: &Vec<Coord>, b: &Bbox) -> (r: Vec<Coord>)
    ensures
        r@ == kept_points(*b, cs@),
{
    let mut r: Vec<Coord> = Vec::new();
    proof {
        reveal(Seq::filter);
    }
    for i in 0..cs.len()
        invariant
            r@ == kept_points(*b, cs@.take(i as int)),
    {
        proof {
            reveal(Seq::filter);
            assert(cs@.take(i as int + 1).drop_last() =~= cs@.take(i as int));
        }
        let c = cs[i];
        if tile_contains(b, c.x, c.y) {
            r.push(c);
        }
    }
    assert(cs@.take(cs@.len() as int) =~= cs@);
    r
}

/// The lines and rings of a geometry that are cut one by one, in order.
pub open spec fn cuts_of(g: GeometryModel) -> Seq<Seq<Coord>>
    decreases g,
{
    match g {
        GeometryModel::Point(_) => Seq::empty(),
        GeometryModel::MultiPoint(_) => Seq::empty(),
        GeometryModel::LineString(cs) => seq![cs],
        GeometryModel::MultiLineString(ls) => ls,
        GeometryModel::Polygon(p) => seq![p.exterior] + p.interiors,
        GeometryModel::MultiPolygon(ps) => polygons_cuts(ps),
        GeometryModel::GeometryCollection(ms) => members_cut_list(ms),
    }
}

pub open spec fn polygons_cuts(ps: Seq<PolygonModel>) -> Seq<Seq<Coord>>
    decreases ps.len(),
{
    if ps.len() == 0 {
        Seq::empty()
    } else {
        polygons_cuts(ps.drop_last()) + (seq![ps.last().exterior] + ps.last().interiors)
    }
}

pub open spec fn members_cut_list(ms: Seq<GeometryModel>) -> Seq<Seq<Coord>>
    decreases ms,
{
    if ms.len() == 0 {
        Seq::empty()
    } else {
        members_cut_list(ms.drop_last()) + cuts_of(ms.last())
    }
}

fn push_line_copies(ls: &Vec<Vec<Coord>>, out: &mut Vec<Vec<Coord>>)
    ensures
        chunk::lines_model(final(out)@) == chunk::lines_model(old(out)@) + chunk::lines_model(ls@),
{
    let ghost start = chunk::lines_model(out@);
    let ghost model = chunk::lines_model(ls@);
    assert(start =~= start + model.take(0));
    for i in 0..ls.len()
        invariant
            model == chunk::lines_model(ls@),
            chunk::lines_model(out@) == start + model.take(i as int),
    {
        let ghost before = chunk::lines_model(out@);
        out.push(copy_coords(&ls[i]));
        assert(chunk::lines_model(out@) =~= before.push(model[i as int]));
        assert(chunk::lines_model(out@) =~= start + model.take(i as int + 1));
    }
    assert(model.take(model.len() as int) =~= model);
}

fn push_ring_copies(p: &Polygon, out: &mut Vec<Vec<Coord>>)
    ensures
        chunk::lines_model(final(out)@) == chunk::lines_model(old(out)@) + (seq![p@.exterior]
            + p@.interiors),
{
    let ghost start = chunk::lines_model(out@);
    out.push(copy_coords(&p.exterior));
    assert(chunk::lines_model(out@) =~= start.push(p@.exterior));
    push_line_copies(&p.interiors, out);
    assert(chunk::lines_model(out@) =~= start + (seq![p@.exterior] + p@.interiors));
}

/// Append the lines and rings of a geometry that are cut one by one.
pub fn collect_cuts(g: &FeatureGeometry, out: &mut Vec<Vec<Coord>>)
    ensures
        chunk::lines_model(final(out)@) == chunk::lines_model(old(out)@) + cuts_of(g@),
    decreases *g,
{
    let ghost start = chunk::lines_model(out@);
    match g {
        FeatureGeometry::Point(_) => {},
        FeatureGeometry::MultiPoint(_) => {},
        FeatureGeometry::LineString(cs) => {
            out.push(copy_coords(cs));
        },
        FeatureGeometry::MultiLineString(ls) => {
            push_line_copies(ls, out);
        },
        FeatureGeometry::Polygon(p) => {
            push_ring_copies(p, out);
        },
        FeatureGeometry::MultiPolygon(ps) => {
            let ghost model = chunk::polygons_model(ps@);
            assert(start =~= start + polygons_cuts(model.take(0)));
            for i in 0..ps.len()
                invariant
                    model == chunk::polygons_model(ps@),
                    chunk::lines_model(out@) == start + polygons_cuts(model.take(i as int)),
            {
                push_ring_copies(&ps[i], out);
                assert(model.take(i as int + 1).drop_last() =~= model.take(i as int));
                assert(chunk::lines_model(out@) =~= start + polygons_cuts(
                    model.take(i as int + 1),
                ));
            }
            assert(model.take(model.len() as int) =~= model);
        },
        FeatureGeometry::GeometryCollection(ms) => {
            proof {
                chunk::collection_model(*ms);
            }
            let ghost model = chunk::geometries_model(ms@);
            assert(start =~= start + members_cut_list(model.take(0)));
            for i in 0..ms.len()
                invariant
                    *g == FeatureGeometry::GeometryCollection(*ms),
                    model == chunk::geometries_model(ms@),
                    chunk::lines_model(out@) == start + members_cut_list(model.take(i as int)),
            {
                assert(decreases_to!(*g => g->GeometryCollection_0));
                assert(decreases_to!(*ms => ms@[i as int]));
                collect_cuts(&ms[i], out);
                assert(model.take(i as int + 1).drop_last() =~= model.take(i as int));
                assert(chunk::lines_model(out@) =~= start + members_cut_list(
                    model.take(i as int + 1),
                ));
            }
            assert(model.take(model.len() as int) =~= model);
        },
    }
    assert(chunk::lines_model(out@) =~= start + cuts_of(g@));
}

proof fn polygons_cuts_count(ps: Seq<PolygonModel>)
    ensures
        polygons_cuts(ps).len() == rings_of(ps),
    decreases ps.len(),
{
    if ps.len() > 0 {
        polygons_cuts_count(ps.drop_last());
    }
}

/// There is one cut per line and ring listed.
pub proof fn cuts_count(g: GeometryModel)
    ensures
        cuts_of(g).len() == cut_count(g),
    decreases g,
{
    match g {
        GeometryModel::MultiPolygon(ps) => {
            polygons_cuts_count(ps);
        },
        GeometryModel::GeometryCollection(ms) => {
            members_cuts_count(ms);
        },
        _ => {},
    }
}

pub(crate) proof fn members_cuts_count(ms: Seq<GeometryModel>)
    ensures
        members_cut_list(ms).len() == members_cuts(ms),
    decreases ms,
{
    if ms.len() > 0 {
        members_cuts_count(ms.drop_last());
        cuts_count(ms.last());
    }
}

} // verus!
