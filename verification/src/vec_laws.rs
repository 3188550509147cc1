//! What is done with features, feature by feature and fragment by fragment.

use vstd::prelude::*;

use crate::chunk;
use crate::chunk::{Coord, FeatureGeometry, FeatureModel, GeometryModel, Polygon, PolygonModel};
use crate::dissolve;
use crate::fragments;
use crate::fragments::Class;
use crate::json;
use crate::json::{JsonModel, JsonNumber};
use crate::number::Real;
use crate::vec_ops;
use crate::vec_ops::Burn;
use crate::vector;

verus! {

// Keeping by a property.

/// A feature has a property: the first of its members with the name has the
/// value.
pub open spec fn carries(f: FeatureModel, name: Seq<char>, v: JsonModel) -> bool {
    exists|i: int|
        0 <= i < f.properties.len() && (#[trigger] f.properties[i]) == (name, v) && forall|j: int|
            0 <= j < i ==> (#[trigger] f.properties[j]).0 != name
}

/// No member of a feature has a name.
pub open spec fn lacks(f: FeatureModel, name: Seq<char>) -> bool {
    forall|i: int| 0 <= i < f.properties.len() ==> (#[trigger] f.properties[i]).0 != name
}

proof fn found_at(ms: Seq<(Seq<char>, JsonModel)>, name: Seq<char>, from: int, i: int)
    requires
        0 <= from <= i <= ms.len(),
        i < ms.len() ==> ms[i].0 == name,
        forall|j: int| from <= j < i ==> (#[trigger] ms[j]).0 != name,
    ensures
        json::member_from(ms, name, from) == (if i < ms.len() {
            Some(ms[i].1)
        } else {
            None
        }),
    decreases i - from,
{
    if from < i {
        found_at(ms, name, from + 1, i);
    }
}

/// A property is looked up by its name, and there is none where no member
/// has the name.
pub proof fn a_property_is_looked_up_by_name(f: FeatureModel, name: Seq<char>, v: JsonModel)
    ensures
        carries(f, name, v) ==> json::member_from(f.properties, name, 0) == Some(v),
        lacks(f, name) ==> json::member_from(f.properties, name, 0) is None,
{
    if carries(f, name, v) {
        let i = choose|i: int|
            0 <= i < f.properties.len() && (#[trigger] f.properties[i]) == (name, v) && forall|
                j: int,
            | 0 <= j < i ==> (#[trigger] f.properties[j]).0 != name;
        found_at(f.properties, name, 0, i);
    }
    if lacks(f, name) {
        found_at(f.properties, name, 0, f.properties.len() as int);
    }
}

/// A filter keeps a feature whose property is the text or the truth value
/// asked for, and none whose property is another, is missing or is of
/// another type.
pub proof fn a_filter_compares_texts_and_truths<F: Fn(Real, Real) -> bool>(
    near: F,
    f: FeatureModel,
    field: Seq<char>,
    v: JsonModel,
    text: Seq<char>,
    truth: bool,
)
    ensures
        carries(f, field, v) ==> vec_ops::stays(near, field, JsonModel::Text(text), f) == (v
            == JsonModel::Text(text)),
        carries(f, field, v) ==> vec_ops::stays(near, field, JsonModel::Bool(truth), f) == (v
            == JsonModel::Bool(truth)),
        lacks(f, field) ==> !vec_ops::stays(near, field, JsonModel::Text(text), f)
            && !vec_ops::stays(near, field, JsonModel::Bool(truth), f),
        !vec_ops::stays(near, field, JsonModel::Null, f),
{
    a_property_is_looked_up_by_name(f, field, v);
}

/// Integers compare exactly, other numbers by nearness, and an integer never
/// equals another number.
pub proof fn a_filter_compares_numbers<F: Fn(Real, Real) -> bool>(
    near: F,
    f: FeatureModel,
    field: Seq<char>,
    a: JsonNumber,
    b: JsonNumber,
)
    requires
        carries(f, field, JsonModel::Number(a)),
    ensures
        ({
            let kept = vec_ops::stays(near, field, JsonModel::Number(b), f);
            &&& a.int is Some && b.int is Some ==> kept == (a.int == b.int)
            &&& a.int is None && b.int is None ==> kept == near.ensures((a.real, b.real), true)
            &&& (a.int is Some) != (b.int is Some) ==> !kept
        }),
{
    a_property_is_looked_up_by_name(f, field, JsonModel::Number(a));
}

// Burning.

/// A constant is burned for every feature; a property for the features that
/// have it as a number, with its value.
pub proof fn a_burn_is_a_constant_or_a_property(
    burn: Burn,
    f: FeatureModel,
    v: JsonModel,
)
    ensures
        burn matches Burn::Constant(c) ==> vec_ops::burned_with(burn, f) == Some(c),
        burn matches Burn::Property(name) ==> (lacks(f, name@) ==> vec_ops::burned_with(
            burn,
            f,
        ) is None) && (carries(f, name@, v) ==> vec_ops::burned_with(burn, f) == (match v {
            JsonModel::Number(n) => Some(n.real),
            _ => None,
        })),
{
    if let Burn::Property(name) = burn {
        a_property_is_looked_up_by_name(f, name@, v);
    }
}

/// How many of the first `n` features are burned.
pub open spec fn burned_count(burn: Burn, fs: Seq<FeatureModel>, n: int) -> nat
    decreases n,
{
    if n <= 0 {
        0
    } else {
        burned_count(burn, fs, n - 1) + (if vec_ops::burned_with(burn, fs[n - 1]) is Some {
            1nat
        } else {
            0
        })
    }
}

/// Every feature that has a value to burn is burned with its own geometry
/// and that value, in the order of the features.
pub proof fn every_feature_is_burned_in_order(burn: Burn, fs: Seq<FeatureModel>, n: int, k: int)
    requires
        0 <= k < n <= fs.len(),
        vec_ops::burned_with(burn, fs[k]) is Some,
    ensures
        ({
            let out = vec_ops::burned(burn, fs, n);
            let at = burned_count(burn, fs, k) as int;
            &&& out.len() == burned_count(burn, fs, n)
            &&& 0 <= at < out.len()
            &&& out[at] == (fs[k].geometry, vec_ops::burned_with(burn, fs[k])->Some_0)
        }),
    decreases n,
{
    burned_length(burn, fs, n);
    burned_length(burn, fs, n - 1);
    if k < n - 1 {
        every_feature_is_burned_in_order(burn, fs, n - 1, k);
    }
}

proof fn burned_length(burn: Burn, fs: Seq<FeatureModel>, n: int)
    ensures
        vec_ops::burned(burn, fs, n).len() == burned_count(burn, fs, n),
    decreases n,
{
    if n > 0 {
        burned_length(burn, fs, n - 1);
    }
}

/// Turned over, a plane holds in each row what it held as far from the other
/// end, column by column.
pub proof fn a_row_goes_to_the_other_end(data: Seq<Real>, cols: int, rows: int, r: int, c: int)
    requires
        data.len() == cols * rows,
        0 <= r < rows,
        0 <= c < cols,
    ensures
        0 <= r * cols + c < data.len(),
        vec_ops::upside_down(data, cols, rows)[r * cols + c] == data[(rows - 1 - r) * cols + c],
{
    assert(0 <= r * cols + c < cols * rows) by (nonlinear_arith)
        requires
            0 <= r < rows,
            0 <= c < cols,
    ;
    vstd::arithmetic::div_mod::lemma_fundamental_div_mod_converse(r * cols + c, cols, r, c);
}

// Cutting to a boundary.

/// Features that a boundary does not cut stay as they are.
pub proof fn an_uncut_feature_stays<C: Fn(FeatureGeometry) -> Option<FeatureGeometry>>(
    c: C,
    fs: Seq<FeatureModel>,
    out: Seq<FeatureModel>,
    n: int,
)
    requires
        0 <= n <= fs.len(),
        vec_ops::cut(c, fs, out, n),
        forall|g: GeometryModel, h: Option<GeometryModel>| #[trigger]
            vec_ops::cuts_to(c, g, h) ==> h == Some(g),
    ensures
        out == fs.take(n),
    decreases n,
{
    if n > 0 {
        let f = fs[n - 1];
        an_uncut_feature_stays(c, fs, out.drop_last(), n - 1);
        assert(out.last() == f);
        assert(fs.take(n - 1).push(f) =~= fs.take(n));
        assert(out.drop_last().push(out.last()) =~= out);
    } else {
        assert(out =~= fs.take(0));
    }
}

/// What a boundary leaves nothing of goes.
pub proof fn what_is_cut_away_goes<C: Fn(FeatureGeometry) -> Option<FeatureGeometry>>(
    c: C,
    fs: Seq<FeatureModel>,
    out: Seq<FeatureModel>,
    n: int,
)
    requires
        0 <= n <= fs.len(),
        vec_ops::cut(c, fs, out, n),
        forall|g: GeometryModel, h: Option<GeometryModel>| #[trigger]
            vec_ops::cuts_to(c, g, h) ==> h is None,
    ensures
        out.len() == 0,
    decreases n,
{
    if n > 0 {
        what_is_cut_away_goes(c, fs, out, n - 1);
    }
}

// Merging fragments.

/// Fragments of points hold their points one behind the other, and so do
/// those of lines and of polygons.
pub proof fn fragments_hand_on_what_they_hold(
    parts: Seq<GeometryModel>,
    c: Coord,
    cs: Seq<Coord>,
    ls: Seq<Seq<Coord>>,
    p: PolygonModel,
    ps: Seq<PolygonModel>,
)
    ensures
        fragments::points_of(Seq::empty()).len() == 0,
        fragments::points_of(parts.push(GeometryModel::Point(c))) == fragments::points_of(
            parts,
        ).push(c),
        fragments::points_of(parts.push(GeometryModel::MultiPoint(cs))) == fragments::points_of(
            parts,
        ) + cs,
        fragments::lines_of(Seq::empty()).len() == 0,
        fragments::lines_of(parts.push(GeometryModel::LineString(cs))) == fragments::lines_of(
            parts,
        ).push(cs),
        fragments::lines_of(parts.push(GeometryModel::MultiLineString(ls))) == fragments::lines_of(
            parts,
        ) + ls,
        dissolve::polygons_in(Seq::empty()).len() == 0,
        dissolve::polygons_in(parts.push(GeometryModel::Polygon(p))) == dissolve::polygons_in(
            parts,
        ).push(p),
        dissolve::polygons_in(parts.push(GeometryModel::MultiPolygon(ps)))
            == dissolve::polygons_in(parts) + ps,
{
    assert(parts.push(GeometryModel::Point(c)).drop_last() =~= parts);
    assert(parts.push(GeometryModel::MultiPoint(cs)).drop_last() =~= parts);
    assert(parts.push(GeometryModel::LineString(cs)).drop_last() =~= parts);
    assert(parts.push(GeometryModel::MultiLineString(ls)).drop_last() =~= parts);
    assert(parts.push(GeometryModel::Polygon(p)).drop_last() =~= parts);
    assert(parts.push(GeometryModel::MultiPolygon(ps)).drop_last() =~= parts);
    assert(fragments::points_of(parts.push(GeometryModel::Point(c))) =~= fragments::points_of(
        parts,
    ).push(c));
    assert(fragments::lines_of(parts.push(GeometryModel::LineString(cs))) =~= fragments::lines_of(
        parts,
    ).push(cs));
    assert(dissolve::polygons_in(parts.push(GeometryModel::Polygon(p))) =~= dissolve::polygons_in(
        parts,
    ).push(p));
}

/// A union that only puts polygons side by side.
pub open spec fn puts_side_by_side<U: Fn(Vec<Polygon>, Polygon) -> Vec<Polygon>>(u: U) -> bool {
    forall|v: Vec<Polygon>, p: Polygon, w: Vec<Polygon>| #[trigger]
        dissolve::unites(u, v, p, w) ==> chunk::polygons_model(w@) == chunk::polygons_model(
            v@,
        ).push(p@)
}

proof fn united_side_by_side<U: Fn(Vec<Polygon>, Polygon) -> Vec<Polygon>>(
    u: U,
    ps: Seq<PolygonModel>,
    w: Vec<Polygon>,
)
    requires
        puts_side_by_side(u),
        dissolve::is_united(u, ps, w),
    ensures
        chunk::polygons_model(w@) == ps,
    decreases ps.len(),
{
    if ps.len() > 1 {
        let (v, p) = choose|v: Vec<Polygon>, p: Polygon| #[trigger]
            dissolve::unites(u, v, p, w) && p@ == ps.last() && dissolve::is_united(
                u,
                ps.drop_last(),
                v,
            );
        united_side_by_side(u, ps.drop_last(), v);
        assert(ps.drop_last().push(ps.last()) =~= ps);
    }
}

/// Every polygon of every fragment goes into the union once, in order: a
/// union that only puts polygons side by side leaves them all.
pub proof fn every_polygon_is_united<
    U: Fn(Vec<Polygon>, Polygon) -> Vec<Polygon>,
    M: Fn(Coord, Coord) -> bool,
>(u: U, m: M, parts: Seq<GeometryModel>, r: Option<GeometryModel>)
    requires
        puts_side_by_side(u),
        parts.len() >= 2,
        parts[0] is Polygon || parts[0] is MultiPolygon,
        dissolve::fragments_merge(u, m, parts, r),
    ensures
        ({
            let all = dissolve::polygons_in(parts);
            &&& all.len() == 0 ==> r is None
            &&& all.len() == 1 ==> r == Some(GeometryModel::Polygon(all[0]))
            &&& all.len() > 1 ==> r == Some(GeometryModel::MultiPolygon(all))
        }),
{
    let ps = dissolve::polygons_in(parts);
    assert(dissolve::polygons_merge(u, ps, r));
    let w = choose|w: Vec<Polygon>| #[trigger]
        dissolve::is_united(u, ps, w) && r == fragments::as_polygons(chunk::polygons_model(w@));
    united_side_by_side(u, ps, w);
}

/// Lines of which no two ends meet stay as they are, all of them and in
/// order.
pub proof fn lines_apart_stay_apart<M: Fn(Coord, Coord) -> bool>(m: M, ls: Seq<Seq<Coord>>)
    requires
        ls.len() <= usize::MAX,
        forall|a: Coord, b: Coord| !#[trigger] m.ensures((a, b), true),
    ensures
        dissolve::joined_lines(m, ls) == ls,
{
    let table = dissolve::meetings(m, ls);
    let pending = Seq::new(ls.len(), |i: int| i as usize);
    places_never_join(m, ls, pending);
    let cs = fragments::chains(table, pending);
    assert forall|i: int| 0 <= i < ls.len() implies #[trigger] dissolve::joined_lines(m, ls)[i]
        == ls[i] by {
        assert(cs[i] == seq![pending[i]]);
        assert(fragments::chained(ls, cs[i]) == ls[i]);
    }
    assert(dissolve::joined_lines(m, ls) =~= ls);
}

proof fn places_never_join<M: Fn(Coord, Coord) -> bool>(
    m: M,
    ls: Seq<Seq<Coord>>,
    pending: Seq<usize>,
)
    requires
        fragments::in_range(pending, ls.len() as int),
        forall|a: Coord, b: Coord| !#[trigger] m.ensures((a, b), true),
    ensures
        fragments::chains(dissolve::meetings(m, ls), pending).len() == pending.len(),
        forall|i: int|
            0 <= i < pending.len() ==> #[trigger] fragments::chains(
                dissolve::meetings(m, ls),
                pending,
            )[i] == seq![pending[i]],
    decreases pending.len(),
{
    let meets = dissolve::meetings(m, ls);
    if pending.len() > 0 {
        let first = seq![pending[0]];
        let rest = pending.drop_first();
        assert(pending[0] < ls.len());
        assert forall|i: int| 0 <= i < rest.len() implies #[trigger] rest[i] < ls.len() by {
            assert(pending[i + 1] < ls.len());
        }
        no_place_in_range(m, ls, rest, pending[0], 0);
        assert(fragments::grown(meets, first, rest) == (first, rest));
        places_never_join(m, ls, rest);
        let all = fragments::chains(meets, pending);
        assert(all == seq![first] + fragments::chains(meets, rest));
        assert forall|i: int| 0 <= i < pending.len() implies #[trigger] all[i]
            == seq![pending[i]] by {
            if i > 0 {
                assert(fragments::chains(meets, rest)[i - 1] == seq![rest[i - 1]]);
                assert(rest[i - 1] == pending[i]);
            }
        }
    }
}

proof fn no_place_in_range<M: Fn(Coord, Coord) -> bool>(
    m: M,
    ls: Seq<Seq<Coord>>,
    pending: Seq<usize>,
    piece: usize,
    from: int,
)
    requires
        0 <= from <= pending.len(),
        piece < ls.len(),
        fragments::in_range(pending, ls.len() as int),
        forall|a: Coord, b: Coord| !#[trigger] m.ensures((a, b), true),
    ensures
        fragments::next_place(dissolve::meetings(m, ls), pending, piece, from) == pending.len(),
        fragments::prior_place(dissolve::meetings(m, ls), pending, piece, from) == pending.len(),
    decreases pending.len() - from,
{
    if from < pending.len() {
        assert(pending[from] < ls.len());
        assert(!fragments::joins(dissolve::meetings(m, ls), piece, pending[from]));
        assert(!fragments::joins(dissolve::meetings(m, ls), pending[from], piece));
        no_place_in_range(m, ls, pending, piece, from + 1);
    }
}

proof fn growing_stops_where_nothing_meets(
    meets: Seq<Seq<bool>>,
    chain: Seq<usize>,
    pending: Seq<usize>,
)
    requires
        chain.len() > 0,
    ensures
        ({
            let (made, rest) = fragments::grown(meets, chain, pending);
            &&& made.len() > 0
            &&& forall|i: int|
                0 <= i < rest.len() ==> !fragments::joins(meets, made.last(), #[trigger] rest[i])
                    && !fragments::joins(meets, rest[i], made[0])
        }),
    decreases pending.len(),
{
    let k = fragments::next_place(meets, pending, chain.last(), 0);
    let j = fragments::prior_place(meets, pending, chain[0], 0);
    places_are_first(meets, pending, chain.last(), chain[0], 0);
    if 0 <= k < pending.len() {
        growing_stops_where_nothing_meets(meets, chain.push(pending[k]), pending.remove(k));
    } else if 0 <= j < pending.len() {
        growing_stops_where_nothing_meets(meets, seq![pending[j]] + chain, pending.remove(j));
    }
}

proof fn places_are_first(
    meets: Seq<Seq<bool>>,
    pending: Seq<usize>,
    end: usize,
    start: usize,
    from: int,
)
    requires
        0 <= from <= pending.len(),
    ensures
        from <= fragments::next_place(meets, pending, end, from) <= pending.len(),
        from <= fragments::prior_place(meets, pending, start, from) <= pending.len(),
        forall|i: int|
            from <= i < fragments::next_place(meets, pending, end, from) ==> !fragments::joins(
                meets,
                end,
                #[trigger] pending[i],
            ),
        forall|i: int|
            from <= i < fragments::prior_place(meets, pending, start, from) ==> !fragments::joins(
                meets,
                #[trigger] pending[i],
                start,
            ),
    decreases pending.len() - from,
{
    if from < pending.len() {
        places_are_first(meets, pending, end, start, from + 1);
    }
}

/// A chain goes as far as it can: no piece that comes after the first chain
/// meets either end of it.
pub proof fn a_chain_goes_as_far_as_it_can(meets: Seq<Seq<bool>>, pending: Seq<usize>)
    requires
        pending.len() > 0,
    ensures
        ({
            let all = fragments::chains(meets, pending);
            let (first, rest) = fragments::grown(meets, seq![pending[0]], pending.drop_first());
            &&& all.len() > 0
            &&& all[0] == first
            &&& all.drop_first() == fragments::chains(meets, rest)
            &&& forall|i: int|
                0 <= i < rest.len() ==> !fragments::joins(meets, first.last(), #[trigger] rest[i])
                    && !fragments::joins(meets, rest[i], first[0])
        }),
{
    let first = seq![pending[0]];
    let (chain, rest) = fragments::grown(meets, first, pending.drop_first());
    growing_stops_where_nothing_meets(meets, first, pending.drop_first());
    let all = fragments::chains(meets, pending);
    assert(all == seq![chain] + fragments::chains(meets, rest));
    assert(all.drop_first() =~= fragments::chains(meets, rest));
}

/// A line of pieces is the first of them and of each other all but its first
/// coordinate, which is the last of the one before.
pub proof fn a_chain_is_its_pieces(pieces: Seq<Seq<Coord>>, chain: Seq<usize>, k: usize)
    requires
        chain.len() > 0,
    ensures
        fragments::chained(pieces, seq![k]) == pieces[k as int],
        fragments::chained(pieces, chain.push(k)) == fragments::chained(pieces, chain)
            + pieces[k as int].drop_first(),
{
    assert(chain.push(k).drop_last() =~= chain);
    assert(seq![k][0] == k);
}

/// A collection merges class by class: points with points, lines with lines
/// and polygons with polygons, whatever they stand between.
pub proof fn a_class_is_picked_out(ms: Seq<GeometryModel>, g: GeometryModel, c: Class)
    ensures
        fragments::of_class(ms.push(g), c) == (if fragments::class_of(g) == c {
            fragments::of_class(ms, c).push(g)
        } else {
            fragments::of_class(ms, c)
        }),
        (fragments::class_of(g) == Class::Point) == (g is Point || g is MultiPoint),
        (fragments::class_of(g) == Class::Line) == (g is LineString || g is MultiLineString),
        (fragments::class_of(g) == Class::Polygon) == (g is Polygon || g is MultiPolygon),
        (fragments::class_of(g) == Class::Collection) == (g is GeometryCollection),
{
    reveal(Seq::filter);
    assert(ms.push(g).drop_last() =~= ms);
}

/// The classes of geometries are listed once each, in the order in which
/// they are first seen, and none is left out.
pub proof fn every_class_is_seen(ms: Seq<GeometryModel>)
    ensures
        forall|c: Class| #[trigger]
            fragments::classes_seen(ms).contains(c) <==> exists|i: int|
                0 <= i < ms.len() && fragments::class_of(#[trigger] ms[i]) == c,
        ms.len() > 0 ==> fragments::classes_seen(ms).len() > 0 && fragments::classes_seen(ms)[0]
            == fragments::class_of(ms[0]),
    decreases ms.len(),
{
    if ms.len() > 0 {
        let rest = ms.drop_last();
        every_class_is_seen(rest);
        let before = fragments::classes_seen(rest);
        let all = fragments::classes_seen(ms);
        let last = fragments::class_of(ms.last());
        assert(ms[ms.len() - 1] == ms.last());
        assert forall|c: Class| #[trigger] all.contains(c) <==> exists|i: int|
            0 <= i < ms.len() && fragments::class_of(#[trigger] ms[i]) == c by {
            if all.contains(c) {
                if c == last {
                    assert(fragments::class_of(ms[ms.len() - 1]) == c);
                } else {
                    if all != before {
                        let k = all.index_of(c);
                        assert(all[k] == c);
                        assert(before[k] == c);
                    }
                    assert(before.contains(c));
                    let i = choose|i: int|
                        0 <= i < rest.len() && fragments::class_of(#[trigger] rest[i]) == c;
                    assert(ms[i] == rest[i]);
                }
            }
            if exists|i: int| 0 <= i < ms.len() && fragments::class_of(#[trigger] ms[i]) == c {
                let i = choose|i: int| 0 <= i < ms.len() && fragments::class_of(#[trigger] ms[i]) == c;
                if i < rest.len() {
                    assert(rest[i] == ms[i]);
                    assert(before.contains(c));
                    let k = before.index_of(c);
                    assert(all[k] == before[k]);
                    assert(all[k] == c);
                } else {
                    if !before.contains(c) {
                        assert(all[before.len() as int] == c);
                    }
                }
            }
        }
        if rest.len() > 0 {
            assert(all[0] == before[0]);
            assert(rest[0] == ms[0]);
        } else {
            assert(before.len() == 0);
            assert(all[0] == last);
        }
    }
}

} // verus!
