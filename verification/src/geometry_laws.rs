//! What is kept of geometries that are cut, simplified and collected.

use vstd::prelude::*;

use crate::chunk::{Coord, FeatureGeometry, FeatureModel, GeometryModel, PolygonModel, VectorChunk};
use crate::composite_laws;
use crate::cutting;
use crate::geometry;
use crate::json::{Json, JsonModel};
use crate::number::Real;
use crate::ranks;
use crate::vec_source;
use crate::vector;
use crate::window::Bbox;

verus! {

// Coordinates.

proof fn flat_adds<T>(a: Seq<Seq<T>>, b: Seq<Seq<T>>)
    ensures
        geometry::flat(a + b) == geometry::flat(a) + geometry::flat(b),
    decreases b.len(),
{
    if b.len() > 0 {
        flat_adds(a, b.drop_last());
        assert((a + b).drop_last() =~= a + b.drop_last());
        assert((a + b).last() == b.last());
        assert(geometry::flat(a + b) =~= geometry::flat(a) + geometry::flat(b));
    } else {
        assert(a + b =~= a);
        assert(geometry::flat(a) + geometry::flat(b) =~= geometry::flat(a));
    }
}

proof fn flat_of_one<T>(l: Seq<T>)
    ensures
        geometry::flat(seq![l]) == l,
{
    assert(seq![l].drop_last() =~= Seq::empty());
    assert(geometry::flat(seq![l].drop_last()) =~= Seq::<T>::empty());
    assert(geometry::flat(seq![l]) =~= l);
}

proof fn polygons_flatten(ps: Seq<PolygonModel>)
    ensures
        geometry::polygons_coords(ps) == geometry::flat(geometry::polygons_cuts(ps)),
    decreases ps.len(),
{
    if ps.len() > 0 {
        polygons_flatten(ps.drop_last());
        let p = ps.last();
        flat_of_one(p.exterior);
        flat_adds(seq![p.exterior], p.interiors);
        flat_adds(geometry::polygons_cuts(ps.drop_last()), seq![p.exterior] + p.interiors);
    } else {
        assert(geometry::polygons_coords(ps) =~= geometry::flat(geometry::polygons_cuts(ps)));
    }
}

/// The coordinates of a geometry are its points, or those of its lines and
/// rings one behind the other: a polygon's outer ring stands before its
/// holes.
pub proof fn coordinates_are_those_of_lines_and_rings(
    c: Coord,
    cs: Seq<Coord>,
    ls: Seq<Seq<Coord>>,
    p: PolygonModel,
    ps: Seq<PolygonModel>,
)
    ensures
        geometry::coords_of(GeometryModel::Point(c)) == seq![c],
        geometry::coords_of(GeometryModel::MultiPoint(cs)) == cs,
        geometry::coords_of(GeometryModel::LineString(cs)) == cs,
        geometry::cuts_of(GeometryModel::LineString(cs)) == seq![cs],
        geometry::cuts_of(GeometryModel::MultiLineString(ls)) == ls,
        geometry::coords_of(GeometryModel::MultiLineString(ls)) == geometry::flat(ls),
        geometry::cuts_of(GeometryModel::Polygon(p)) == seq![p.exterior] + p.interiors,
        geometry::coords_of(GeometryModel::Polygon(p)) == geometry::flat(
            seq![p.exterior] + p.interiors,
        ),
        geometry::coords_of(GeometryModel::MultiPolygon(ps)) == geometry::flat(
            geometry::cuts_of(GeometryModel::MultiPolygon(ps)),
        ),
        geometry::cuts_of(GeometryModel::MultiPolygon(seq![p])) == geometry::cuts_of(
            GeometryModel::Polygon(p),
        ),
{
    flat_of_one(p.exterior);
    flat_adds(seq![p.exterior], p.interiors);
    polygons_flatten(ps);
    assert(seq![p].drop_last() =~= Seq::empty());
    assert(geometry::polygons_cuts(seq![p].drop_last()) =~= Seq::<Seq<Coord>>::empty());
    assert(geometry::polygons_cuts(seq![p]) =~= seq![p.exterior] + p.interiors);
}

/// The members of a collection stand one behind the other.
pub proof fn members_follow_each_other(ms: Seq<GeometryModel>, g: GeometryModel)
    ensures
        geometry::coords_of(GeometryModel::GeometryCollection(ms.push(g))) == geometry::coords_of(
            GeometryModel::GeometryCollection(ms),
        ) + geometry::coords_of(g),
        geometry::cuts_of(GeometryModel::GeometryCollection(ms.push(g))) == geometry::cuts_of(
            GeometryModel::GeometryCollection(ms),
        ) + geometry::cuts_of(g),
{
    assert(ms.push(g).drop_last() =~= ms);
}

/// Every coordinate that has numbers lies in the box around it and others.
pub proof fn the_box_holds_every_coordinate(cs: Seq<Coord>, i: int)
    requires
        0 <= i < cs.len(),
    ensures
        ({
            let b = geometry::box_around(cs);
            &&& !b.min_x.nan() && !b.min_y.nan() && !b.max_x.nan() && !b.max_y.nan()
            &&& !cs[i].x.nan() ==> b.min_x.place() <= cs[i].x.place() <= b.max_x.place()
            &&& !cs[i].y.nan() ==> b.min_y.place() <= cs[i].y.place() <= b.max_y.place()
        }),
    decreases cs.len(),
{
    box_is_numbers(cs);
    box_is_numbers(cs.drop_last());
    if i < cs.len() - 1 {
        the_box_holds_every_coordinate(cs.drop_last(), i);
    }
}

proof fn box_is_numbers(cs: Seq<Coord>)
    ensures
        ({
            let b = geometry::box_around(cs);
            !b.min_x.nan() && !b.min_y.nan() && !b.max_x.nan() && !b.max_y.nan()
        }),
    decreases cs.len(),
{
    if cs.len() > 0 {
        box_is_numbers(cs.drop_last());
    }
}

/// Every side of a box around finite coordinates touches one of them.
pub proof fn every_side_of_a_box_is_touched(cs: Seq<Coord>)
    requires
        cs.len() > 0,
        forall|i: int|
            0 <= i < cs.len() ==> (#[trigger] cs[i]).x.finite() && cs[i].y.finite(),
    ensures
        ({
            let b = geometry::box_around(cs);
            &&& exists|i: int| 0 <= i < cs.len() && (#[trigger] cs[i]).x == b.min_x
            &&& exists|i: int| 0 <= i < cs.len() && (#[trigger] cs[i]).x == b.max_x
            &&& exists|i: int| 0 <= i < cs.len() && (#[trigger] cs[i]).y == b.min_y
            &&& exists|i: int| 0 <= i < cs.len() && (#[trigger] cs[i]).y == b.max_y
        }),
    decreases cs.len(),
{
    let rest = cs.drop_last();
    let a = geometry::box_around(rest);
    let b = geometry::box_around(cs);
    let n = cs.len() - 1;
    assert(cs[n] == cs.last());
    assert(cs[n].x.finite() && cs[n].y.finite());
    if rest.len() > 0 {
        assert forall|i: int| 0 <= i < rest.len() implies (#[trigger] rest[i]).x.finite()
            && rest[i].y.finite() by {
            assert(cs[i].x.finite());
        }
        every_side_of_a_box_is_touched(rest);
        box_is_numbers(rest);
        let i = choose|i: int| 0 <= i < rest.len() && (#[trigger] rest[i]).x == a.min_x;
        let j = choose|j: int| 0 <= j < rest.len() && (#[trigger] rest[j]).x == a.max_x;
        let k = choose|k: int| 0 <= k < rest.len() && (#[trigger] rest[k]).y == a.min_y;
        let l = choose|l: int| 0 <= l < rest.len() && (#[trigger] rest[l]).y == a.max_y;
        assert(cs[i].x == b.min_x || cs[n].x == b.min_x);
        assert(cs[j].x == b.max_x || cs[n].x == b.max_x);
        assert(cs[k].y == b.min_y || cs[n].y == b.min_y);
        assert(cs[l].y == b.max_y || cs[n].y == b.max_y);
    } else {
        assert(cs[n].x == b.min_x);
        assert(cs[n].x == b.max_x);
        assert(cs[n].y == b.min_y);
        assert(cs[n].y == b.max_y);
    }
}

/// The box around a collection holds every coordinate of every feature.
pub proof fn the_extent_holds_every_feature(fs: Seq<FeatureModel>, n: int, k: int, i: int)
    requires
        0 <= k < n <= fs.len(),
        0 <= i < geometry::coords_of(fs[k].geometry).len(),
    ensures
        ({
            let c = geometry::coords_of(fs[k].geometry)[i];
            vector::extent(fs, n) matches Some(b) && (!b.min_x.nan() && !b.min_y.nan()
                && !b.max_x.nan() && !b.max_y.nan()) && (!c.x.nan() ==> b.min_x.place()
                <= c.x.place() <= b.max_x.place()) && (!c.y.nan() ==> b.min_y.place()
                <= c.y.place() <= b.max_y.place())
        }),
    decreases n,
{
    let own = geometry::coords_of(fs[n - 1].geometry);
    box_is_numbers(own);
    if k < n - 1 {
        the_extent_holds_every_feature(fs, n - 1, k, i);
    } else {
        the_box_holds_every_coordinate(own, i);
        if n > 1 {
            extent_is_numbers(fs, n - 1);
        }
    }
}

proof fn extent_is_numbers(fs: Seq<FeatureModel>, n: int)
    requires
        0 < n <= fs.len(),
    ensures
        vector::extent(fs, n) matches Some(b) && !b.min_x.nan() && !b.min_y.nan()
            && !b.max_x.nan() && !b.max_y.nan(),
    decreases n,
{
    box_is_numbers(geometry::coords_of(fs[n - 1].geometry));
    if n > 1 {
        extent_is_numbers(fs, n - 1);
    } else {
        assert(vector::extent(fs, 0) is None);
    }
}

/// A tile holds its left and its upper edge and not its right and its lower
/// one.
pub proof fn a_tile_holds_its_left_and_upper_edge(b: Bbox, c: Coord)
    requires
        !b.min_x.nan(),
        !b.min_y.nan(),
        !b.max_x.nan(),
        !b.max_y.nan(),
        !c.x.nan(),
        !c.y.nan(),
    ensures
        geometry::inside(b, c) == (b.min_x.place() <= c.x.place() < b.max_x.place()
            && b.min_y.place() < c.y.place() <= b.max_y.place()),
{
}

// Cuts that cut nothing.

/// Lines as they are when nothing is cut off: each in one piece.
pub open spec fn uncut(ls: Seq<Seq<Coord>>) -> Seq<Seq<Seq<Coord>>> {
    Seq::new(ls.len(), |i: int| seq![ls[i]])
}

/// Every ring of a polygon has so many coordinates.
pub open spec fn rings_have(p: PolygonModel, least: int) -> bool {
    p.exterior.len() >= least && forall|i: int|
        0 <= i < p.interiors.len() ==> (#[trigger] p.interiors[i]).len() >= least
}

/// A geometry holds something, lies in a tile, and its rings enclose
/// something.
pub open spec fn lies_in(g: GeometryModel, b: Bbox, least: int) -> bool
    decreases g,
{
    match g {
        GeometryModel::Point(c) => geometry::inside(b, c),
        GeometryModel::MultiPoint(cs) => cs.len() > 0 && forall|i: int|
            0 <= i < cs.len() ==> geometry::inside(b, #[trigger] cs[i]),
        GeometryModel::LineString(cs) => geometry::keeps_part(b, cs),
        GeometryModel::MultiLineString(ls) => ls.len() > 0 && forall|i: int|
            0 <= i < ls.len() ==> geometry::keeps_part(b, #[trigger] ls[i]),
        GeometryModel::Polygon(p) => rings_have(p, least),
        GeometryModel::MultiPolygon(ps) => ps.len() > 0 && forall|i: int|
            0 <= i < ps.len() ==> rings_have(#[trigger] ps[i], least),
        GeometryModel::GeometryCollection(ms) => ms.len() > 0 && all_lie_in(ms, b, least),
    }
}

pub open spec fn all_lie_in(ms: Seq<GeometryModel>, b: Bbox, least: int) -> bool
    decreases ms,
{
    ms.len() == 0 || (all_lie_in(ms.drop_last(), b, least) && lies_in(ms.last(), b, least))
}

proof fn keeps_all<T>(s: Seq<T>, keep: spec_fn(T) -> bool)
    requires
        forall|i: int| 0 <= i < s.len() ==> keep(#[trigger] s[i]),
    ensures
        s.filter(keep) == s,
    decreases s.len(),
{
    reveal(Seq::filter);
    if s.len() > 0 {
        let rest = s.drop_last();
        assert forall|i: int| 0 <= i < rest.len() implies keep(#[trigger] rest[i]) by {
            assert(rest[i] == s[i]);
        }
        keeps_all(rest, keep);
        assert(keep(s[s.len() - 1]));
        assert(rest.push(s.last()) =~= s);
    }
}

proof fn flat_of_uncut(ls: Seq<Seq<Coord>>)
    ensures
        geometry::flat(uncut(ls)) == ls,
    decreases ls.len(),
{
    if ls.len() > 0 {
        flat_of_uncut(ls.drop_last());
        assert(uncut(ls).drop_last() =~= uncut(ls.drop_last()));
        assert(geometry::flat(uncut(ls)) =~= ls);
    } else {
        assert(geometry::flat(uncut(ls)) =~= ls);
    }
}

proof fn uncut_rings(ls: Seq<Seq<Coord>>, least: int)
    requires
        forall|i: int| 0 <= i < ls.len() ==> (#[trigger] ls[i]).len() >= least,
    ensures
        geometry::kept_rings(uncut(ls), least) == ls,
    decreases ls.len(),
{
    if ls.len() > 0 {
        let rest = ls.drop_last();
        assert forall|i: int| 0 <= i < rest.len() implies (#[trigger] rest[i]).len() >= least by {
            assert(rest[i] == ls[i]);
        }
        uncut_rings(rest, least);
        assert(uncut(ls).drop_last() =~= uncut(rest));
        assert(ls[ls.len() - 1].len() >= least);
        assert(rest.push(ls.last()) =~= ls);
    } else {
        assert(geometry::kept_rings(uncut(ls), least) =~= ls);
    }
}

proof fn uncut_polygon(p: PolygonModel, least: int)
    requires
        rings_have(p, least),
    ensures
        geometry::recut_polygon(uncut(seq![p.exterior] + p.interiors), least) == Some(p),
{
    let ls = seq![p.exterior] + p.interiors;
    let pieces = uncut(ls);
    assert(pieces[0] == seq![ls[0]]);
    assert(pieces.drop_first() =~= uncut(p.interiors));
    uncut_rings(p.interiors, least);
}

proof fn uncut_polygons(ps: Seq<PolygonModel>, least: int)
    requires
        forall|i: int| 0 <= i < ps.len() ==> rings_have(#[trigger] ps[i], least),
    ensures
        geometry::polygons_cuts(ps).len() == geometry::rings_of(ps),
        geometry::recut_polygons(ps, uncut(geometry::polygons_cuts(ps)), least) == ps,
    decreases ps.len(),
{
    if ps.len() > 0 {
        let rest = ps.drop_last();
        let p = ps.last();
        assert forall|i: int| 0 <= i < rest.len() implies rings_have(#[trigger] rest[i], least) by {
            assert(rings_have(ps[i], least));
        }
        uncut_polygons(rest, least);
        let all = geometry::polygons_cuts(ps);
        let before = geometry::polygons_cuts(rest);
        let own = seq![p.exterior] + p.interiors;
        let n = before.len() as int;
        assert(all == before + own);
        assert(uncut(all).take(n) =~= uncut(before));
        assert(uncut(all).skip(n) =~= uncut(own));
        assert(rings_have(ps[ps.len() - 1], least));
        uncut_polygon(p, least);
        assert(rest.push(p) =~= ps);
    } else {
        assert(geometry::recut_polygons(ps, uncut(geometry::polygons_cuts(ps)), least) =~= ps);
    }
}

/// A geometry that lies in a tile, and of which no line or ring is cut,
/// comes out whole: with all its points, lines and parts, each polygon with
/// its holes.
pub proof fn what_lies_inside_stays_whole(g: GeometryModel, b: Bbox)
    requires
        lies_in(g, b, 3),
    ensures
        geometry::clipped(g, b, uncut(geometry::cuts_of(g))) == seq![g],
    decreases g,
{
    let pieces = uncut(geometry::cuts_of(g));
    match g {
        GeometryModel::Point(_) => {},
        GeometryModel::MultiPoint(cs) => {
            keeps_all(cs, |c: Coord| geometry::inside(b, c));
        },
        GeometryModel::LineString(cs) => {
            assert(pieces[0] == seq![cs]);
            keeps_all(seq![cs], |p: Seq<Coord>| geometry::keeps_part(b, p));
            assert(geometry::clipped(g, b, pieces) =~= seq![g]);
        },
        GeometryModel::MultiLineString(ls) => {
            flat_of_uncut(ls);
            keeps_all(ls, |p: Seq<Coord>| geometry::keeps_part(b, p));
        },
        GeometryModel::Polygon(p) => {
            uncut_polygon(p, 3);
        },
        GeometryModel::MultiPolygon(ps) => {
            uncut_polygons(ps, 3);
        },
        GeometryModel::GeometryCollection(ms) => {
            members_inside_stay(ms, b);
        },
    }
}

proof fn members_inside_stay(ms: Seq<GeometryModel>, b: Bbox)
    requires
        all_lie_in(ms, b, 3),
    ensures
        geometry::members_clipped(ms, b, uncut(geometry::members_cut_list(ms))) == ms,
    decreases ms,
{
    if ms.len() > 0 {
        let rest = ms.drop_last();
        members_inside_stay(rest, b);
        what_lies_inside_stays_whole(ms.last(), b);
        geometry::members_cuts_count(rest);
        let before = geometry::members_cut_list(rest);
        let all = geometry::members_cut_list(ms);
        let n = before.len() as int;
        assert(uncut(all).take(n) =~= uncut(before));
        assert(uncut(all).skip(n) =~= uncut(geometry::cuts_of(ms.last())));
        assert(rest + seq![ms.last()] =~= ms);
    } else {
        assert(geometry::members_clipped(ms, b, uncut(geometry::members_cut_list(ms))) =~= ms);
    }
}

/// A geometry whose rings enclose something, at four coordinates or more,
/// and whose lines and rings are not thinned, is simplified to itself.
pub proof fn what_is_not_thinned_stays(g: GeometryModel, b: Bbox)
    requires
        lies_in(g, b, 4),
    ensures
        vector::simplified(g, uncut(geometry::cuts_of(g))) == Some(g),
    decreases g,
{
    let pieces = uncut(geometry::cuts_of(g));
    match g {
        GeometryModel::Point(_) => {},
        GeometryModel::MultiPoint(_) => {},
        GeometryModel::LineString(cs) => {
            assert(pieces[0] == seq![cs]);
        },
        GeometryModel::MultiLineString(ls) => {
            assert(vector::thin_lines(pieces) =~= ls);
        },
        GeometryModel::Polygon(p) => {
            uncut_polygon(p, 4);
        },
        GeometryModel::MultiPolygon(ps) => {
            uncut_polygons(ps, 4);
        },
        GeometryModel::GeometryCollection(ms) => {
            members_not_thinned_stay(ms, b);
        },
    }
}

proof fn members_not_thinned_stay(ms: Seq<GeometryModel>, b: Bbox)
    requires
        all_lie_in(ms, b, 4),
    ensures
        vector::members_simplified(ms, uncut(geometry::members_cut_list(ms))) == ms,
    decreases ms,
{
    if ms.len() > 0 {
        let rest = ms.drop_last();
        members_not_thinned_stay(rest, b);
        what_is_not_thinned_stays(ms.last(), b);
        geometry::members_cuts_count(rest);
        let before = geometry::members_cut_list(rest);
        let all = geometry::members_cut_list(ms);
        let n = before.len() as int;
        assert(uncut(all).take(n) =~= uncut(before));
        assert(uncut(all).skip(n) =~= uncut(geometry::cuts_of(ms.last())));
        assert(rest.push(ms.last()) =~= ms);
    } else {
        assert(vector::members_simplified(ms, uncut(geometry::members_cut_list(ms))) =~= ms);
    }
}

/// A ring of which too little is left goes: a polygon with its outer ring,
/// and otherwise the hole alone.
pub proof fn what_encloses_nothing_goes(
    exterior: Seq<Coord>,
    before: Seq<Seq<Coord>>,
    hole: Seq<Coord>,
    after: Seq<Seq<Coord>>,
    least: int,
)
    requires
        hole.len() < least,
        forall|i: int| 0 <= i < before.len() ==> (#[trigger] before[i]).len() >= least,
        forall|i: int| 0 <= i < after.len() ==> (#[trigger] after[i]).len() >= least,
    ensures
        ({
            let pieces = uncut(seq![exterior] + (before + seq![hole] + after));
            geometry::recut_polygon(pieces, least) == (if exterior.len() < least {
                None
            } else {
                Some(PolygonModel { exterior, interiors: before + after })
            })
        }),
{
    let rings = before + seq![hole] + after;
    let pieces = uncut(seq![exterior] + rings);
    assert(pieces[0] == seq![exterior]);
    assert(pieces.drop_first() =~= uncut(rings));
    rings_split(before + seq![hole], after, least);
    rings_split(before, seq![hole], least);
    uncut_rings(before, least);
    uncut_rings(after, least);
    assert(uncut(seq![hole]).drop_last() =~= Seq::empty());
    assert(geometry::kept_rings(uncut(seq![hole]).drop_last(), least) =~= Seq::<Seq<Coord>>::empty());
    assert(geometry::kept_rings(uncut(seq![hole]), least) =~= Seq::<Seq<Coord>>::empty());
    assert(before + Seq::<Seq<Coord>>::empty() =~= before);
}

proof fn rings_split(a: Seq<Seq<Coord>>, b: Seq<Seq<Coord>>, least: int)
    ensures
        geometry::kept_rings(uncut(a + b), least) == geometry::kept_rings(uncut(a), least)
            + geometry::kept_rings(uncut(b), least),
    decreases b.len(),
{
    let first = geometry::kept_rings(uncut(a), least);
    if b.len() > 0 {
        rings_split(a, b.drop_last(), least);
        assert(uncut(a + b).drop_last() =~= uncut(a + b.drop_last()));
        assert(uncut(b).drop_last() =~= uncut(b.drop_last()));
        assert(uncut(a + b).last() == uncut(b).last());
        assert(geometry::kept_rings(uncut(a + b), least) =~= first + geometry::kept_rings(
            uncut(b),
            least,
        ));
    } else {
        assert(a + b =~= a);
        assert(first + geometry::kept_rings(uncut(b), least) =~= first);
    }
}

/// Points that a tile does not hold go, and a line goes of which no piece is
/// left, or none but along the right or the lower edge.
pub proof fn what_lies_outside_goes(c: Coord, cs: Seq<Coord>, b: Bbox, part: Seq<Coord>)
    ensures
        !geometry::inside(b, c) ==> geometry::clipped(
            GeometryModel::Point(c),
            b,
            Seq::empty(),
        ).len() == 0,
        geometry::clipped(
            GeometryModel::LineString(cs),
            b,
            seq![Seq::<Seq<Coord>>::empty()],
        ).len() == 0,
        part.len() < 2 || (forall|i: int|
            0 <= i < part.len() ==> (#[trigger] part[i]).x.equals(b.max_x)) || (forall|i: int|
            0 <= i < part.len() ==> (#[trigger] part[i]).y.equals(b.min_y)) ==> geometry::clipped(
            GeometryModel::LineString(cs),
            b,
            seq![seq![part]],
        ).len() == 0,
        part.len() >= 2 && (exists|i: int|
            0 <= i < part.len() && !(#[trigger] part[i]).x.equals(b.max_x)) && (exists|i: int|
            0 <= i < part.len() && !(#[trigger] part[i]).y.equals(b.min_y)) ==> geometry::clipped(
            GeometryModel::LineString(cs),
            b,
            seq![seq![part]],
        ) == seq![GeometryModel::LineString(part)],
{
    reveal(Seq::filter);
    let keep = |p: Seq<Coord>| geometry::keeps_part(b, p);
    let none = Seq::<Seq<Coord>>::empty();
    assert(seq![none][0] == none);
    assert(none.filter(keep) =~= none);
    let one = seq![part];
    assert(seq![one][0] == one);
    assert(one.drop_last() =~= none);
    assert(one.last() == part);
    if geometry::keeps_part(b, part) {
        assert(one.filter(keep) =~= one);
        assert(geometry::clipped(GeometryModel::LineString(cs), b, seq![one])
            =~= seq![GeometryModel::LineString(part)]);
    } else {
        assert(one.filter(keep) =~= none);
    }
}

/// The pieces of a line that falls apart are fragments of their own, in
/// order.
pub proof fn pieces_are_fragments(cs: Seq<Coord>, b: Bbox, parts: Seq<Seq<Coord>>)
    requires
        forall|i: int| 0 <= i < parts.len() ==> geometry::keeps_part(b, #[trigger] parts[i]),
    ensures
        geometry::clipped(GeometryModel::LineString(cs), b, seq![parts]) == Seq::new(
            parts.len(),
            |i: int| GeometryModel::LineString(parts[i]),
        ),
{
    keeps_all(parts, |p: Seq<Coord>| geometry::keeps_part(b, p));
    assert(seq![parts][0] == parts);
}

// Features.

/// Features of which nothing is cut come out as they are, each with its id
/// and properties.
pub proof fn features_inside_stay_whole(fs: Seq<FeatureModel>, b: Bbox)
    requires
        forall|i: int| 0 <= i < fs.len() ==> lies_in((#[trigger] fs[i]).geometry, b, 3),
    ensures
        vector::clipped_features(
            fs,
            b,
            uncut(geometry::members_cut_list(vector::shapes(fs))),
        ) == fs,
    decreases fs.len(),
{
    if fs.len() > 0 {
        let rest = fs.drop_last();
        let f = fs.last();
        assert forall|i: int| 0 <= i < rest.len() implies lies_in(
            (#[trigger] rest[i]).geometry,
            b,
            3,
        ) by {
            assert(lies_in(fs[i].geometry, b, 3));
        }
        features_inside_stay_whole(rest, b);
        assert(lies_in(fs[fs.len() - 1].geometry, b, 3));
        what_lies_inside_stays_whole(f.geometry, b);
        let gs = vector::shapes(fs);
        assert(gs.drop_last() =~= vector::shapes(rest));
        geometry::members_cuts_count(vector::shapes(rest));
        let before = geometry::members_cut_list(vector::shapes(rest));
        let all = geometry::members_cut_list(gs);
        let n = before.len() as int;
        assert(uncut(all).take(n) =~= uncut(before));
        assert(uncut(all).skip(n) =~= uncut(geometry::cuts_of(f.geometry)));
        assert(vector::fragments_of(f, seq![f.geometry]) =~= seq![f]);
        assert(rest + seq![f] =~= fs);
    } else {
        assert(vector::clipped_features(
            fs,
            b,
            uncut(geometry::members_cut_list(vector::shapes(fs))),
        ) =~= fs);
    }
}

/// Every fragment that a cut leaves has the id and the properties of a
/// feature that was cut.
pub proof fn a_fragment_is_of_its_feature(
    fs: Seq<FeatureModel>,
    b: Bbox,
    pieces: Seq<Seq<Seq<Coord>>>,
    i: int,
)
    requires
        0 <= i < vector::clipped_features(fs, b, pieces).len(),
    ensures
        ({
            let f = vector::clipped_features(fs, b, pieces)[i];
            exists|k: int|
                0 <= k < fs.len() && (#[trigger] fs[k]).id == f.id && fs[k].properties
                    == f.properties
        }),
    decreases fs.len(),
{
    if fs.len() > 0 {
        let rest = fs.drop_last();
        let n = geometry::members_cuts(vector::shapes(rest));
        let before = vector::clipped_features(rest, b, pieces.take(n));
        let f = vector::clipped_features(fs, b, pieces)[i];
        if i < before.len() {
            a_fragment_is_of_its_feature(rest, b, pieces.take(n), i);
            let k = choose|k: int|
                0 <= k < rest.len() && (#[trigger] rest[k]).id == f.id && rest[k].properties
                    == f.properties;
            assert(fs[k] == rest[k]);
        } else {
            assert(fs[fs.len() - 1].id == f.id);
        }
    }
}

/// The features of chunks stand one behind the other, chunk by chunk.
pub proof fn chunks_hand_on_every_feature(parts: Seq<&VectorChunk>, n: int)
    requires
        0 <= n < parts.len(),
    ensures
        vector::all_features(parts, n + 1) == vector::all_features(parts, n)
            + crate::chunk::features_model(parts[n].features@),
        vector::all_features(parts, 0).len() == 0,
{
}

// Opening a collection.

/// How many of the first `n` items have a geometry.
pub open spec fn with_geometry(
    items: Seq<(Option<FeatureGeometry>, Vec<(String, Json)>)>,
    n: int,
) -> nat
    decreases n,
{
    if n <= 0 {
        0
    } else {
        with_geometry(items, n - 1) + (if items[n - 1].0 is Some {
            1nat
        } else {
            0
        })
    }
}

/// Every item that has a geometry becomes a feature, with its geometry, its
/// properties and the number of such items before it as its id.
pub proof fn every_item_becomes_a_feature(
    items: Seq<(Option<FeatureGeometry>, Vec<(String, Json)>)>,
    n: int,
    k: int,
)
    requires
        0 <= k < n <= items.len() <= u64::MAX,
        items[k].0 is Some,
    ensures
        ({
            let fs = vector::numbered(items, n);
            let at = with_geometry(items, k) as int;
            &&& fs.len() == with_geometry(items, n)
            &&& 0 <= at < fs.len()
            &&& fs[at].id == at
            &&& fs[at].geometry == items[k].0->Some_0@
            &&& fs[at].properties == crate::json::members_model(items[k].1@)
        }),
    decreases n,
{
    numbered_length(items, n);
    numbered_length(items, n - 1);
    numbered_length(items, k);
    if k < n - 1 {
        every_item_becomes_a_feature(items, n - 1, k);
    }
}

proof fn numbered_length(items: Seq<(Option<FeatureGeometry>, Vec<(String, Json)>)>, n: int)
    ensures
        vector::numbered(items, n).len() == with_geometry(items, n),
        n >= 0 ==> with_geometry(items, n) <= n,
    decreases n,
{
    if n > 0 {
        numbered_length(items, n - 1);
    }
}

/// A line has a segment between any two coordinates that follow each other,
/// and no other.
pub proof fn a_line_has_its_segments(cs: Seq<Coord>, i: int)
    requires
        0 <= i < cs.len() - 1,
    ensures
        vector::all_segments(seq![cs]).len() == cs.len() - 1,
        vector::all_segments(seq![cs])[i] == (cs[i], cs[i + 1]),
{
    assert(seq![cs].drop_last() =~= Seq::empty());
    assert(vector::all_segments(seq![cs].drop_last()) =~= Seq::<(Coord, Coord)>::empty());
    assert(seq![cs].last() == cs);
    assert(vector::all_segments(seq![cs]) =~= vector::line_segments(cs));
}

/// The segments of lines stand one behind the other.
pub proof fn lines_have_their_segments(ls: Seq<Seq<Coord>>, cs: Seq<Coord>)
    ensures
        vector::all_segments(ls.push(cs)) == vector::all_segments(ls) + vector::all_segments(
            seq![cs],
        ),
{
    assert(ls.push(cs).drop_last() =~= ls);
    assert(seq![cs].drop_last() =~= Seq::empty());
    assert(vector::all_segments(seq![cs].drop_last()) =~= Seq::<(Coord, Coord)>::empty());
    assert(vector::all_segments(seq![cs]) =~= vector::line_segments(cs));
}

/// The segments of features stand one behind the other, those of every
/// feature with them.
pub proof fn features_have_their_segments(fs: Seq<FeatureModel>, n: int)
    requires
        0 <= n < fs.len(),
    ensures
        vec_source::feature_segments(fs, 0).len() == 0,
        vec_source::feature_segments(fs, n + 1) == vec_source::feature_segments(fs, n)
            + vector::all_segments(geometry::cuts_of(fs[n].geometry)),
{
}

// Rings among lines.

proof fn polygons_have_their_rings(ps: Seq<PolygonModel>)
    ensures
        geometry::polygons_cuts(ps).len() == geometry::rings_of(ps),
    decreases ps.len(),
{
    if ps.len() > 0 {
        polygons_have_their_rings(ps.drop_last());
    }
}

/// Everything that is cut of a geometry is told to be a ring or a line:
/// what polygons are bounded by is rings, and nothing else is.
pub proof fn rings_are_those_of_polygons(g: GeometryModel, i: int)
    requires
        0 <= i < geometry::cuts_of(g).len(),
    ensures
        cutting::rings_among(g).len() == geometry::cuts_of(g).len(),
        g is LineString || g is MultiLineString ==> !cutting::rings_among(g)[i],
        g is Polygon || g is MultiPolygon ==> cutting::rings_among(g)[i],
{
    each_is_told(g);
    if let GeometryModel::MultiPolygon(ps) = g {
        polygons_have_their_rings(ps);
    }
}

proof fn each_is_told(g: GeometryModel)
    ensures
        cutting::rings_among(g).len() == geometry::cuts_of(g).len(),
    decreases g,
{
    match g {
        GeometryModel::MultiPolygon(ps) => {
            polygons_have_their_rings(ps);
        },
        GeometryModel::GeometryCollection(ms) => {
            each_member_is_told(ms);
        },
        _ => {},
    }
}

proof fn each_member_is_told(ms: Seq<GeometryModel>)
    ensures
        cutting::all_rings_among(ms).len() == geometry::members_cut_list(ms).len(),
    decreases ms,
{
    if ms.len() > 0 {
        each_member_is_told(ms.drop_last());
        each_is_told(ms.last());
    }
}

/// The rings among the members of a collection are told member by member.
pub proof fn rings_follow_their_members(ms: Seq<GeometryModel>, g: GeometryModel, i: int)
    requires
        0 <= i < geometry::cuts_of(g).len(),
    ensures
        cutting::all_rings_among(ms.push(g)).len() == geometry::members_cut_list(ms).len()
            + geometry::cuts_of(g).len(),
        cutting::all_rings_among(ms.push(g))[geometry::members_cut_list(ms).len() + i]
            == cutting::rings_among(g)[i],
        geometry::members_cut_list(ms.push(g))[geometry::members_cut_list(ms).len() + i]
            == geometry::cuts_of(g)[i],
{
    assert(ms.push(g).drop_last() =~= ms);
    each_member_is_told(ms);
    each_is_told(g);
}

// Lengths.

/// The middle of lengths is one of them, above which and below which lie no
/// more than half of them; of two in the middle it is the longer.
pub proof fn the_middle_length_has_half_on_either_side(lengths: Seq<Real>, v: Real)
    requires
        lengths.len() > 0,
        vector::is_middle(lengths, v),
    ensures
        lengths.contains(v),
        2 * composite_laws::not_above(lengths, v) > lengths.len(),
        2 * composite_laws::not_below(lengths, v) >= lengths.len(),
        lengths.len() % 2 == 0 ==> 2 * composite_laws::not_above(lengths, v) >= lengths.len() + 2,
{
    let n = lengths.len() as int;
    let s = choose|s: Seq<Real>| #[trigger]
        ranks::ranked(s) && s.to_multiset() == lengths.to_multiset() && s.len() == lengths.len()
            && v == s[s.len() as int / 2];
    composite_laws::rank_counts(s, lengths, n / 2);
}

/// A length counts where it is above zero, as often as it occurs, and
/// nowhere else.
pub proof fn only_lengths_above_zero_count(lengths: Seq<Real>, l: Real)
    ensures
        vector::positive(lengths.push(l)) == (if !l.nan() && l.place() > (Real {
            bits: 0,
        }).place() {
            vector::positive(lengths).push(l)
        } else {
            vector::positive(lengths)
        }),
{
    reveal(Seq::filter);
    assert(lengths.push(l).drop_last() =~= lengths);
}

} // verus!
