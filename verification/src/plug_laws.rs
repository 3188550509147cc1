//! Where adapters go, and what they are asked for.

use vstd::prelude::*;

use crate::caps;
use crate::caps::{ConstraintModel, Crs, PatternModel};
use crate::caps_laws;
use crate::caps_laws::Offer;
use crate::elements;
use crate::elements::AdapterKind;
use crate::plug;
use crate::plug::Shape;
use crate::solver::Links;

verus! {

/// A node put on a link reads from where the link came from, whoever read
/// there through the link reads from the new node, and all else stays.
pub proof fn a_node_on_a_link_stands_between(
    parents: Seq<Seq<usize>>,
    up: usize,
    down: usize,
    i: int,
    k: int,
)
    requires
        down < parents.len() <= usize::MAX,
        0 <= i < parents.len(),
        0 <= k < parents[i].len(),
    ensures
        ({
            let after = plug::spliced_parents(parents, up, down);
            &&& after.len() == parents.len() + 1
            &&& after[parents.len() as int].len() == 1
            &&& after[parents.len() as int][0] == up
            &&& after[i].len() == parents[i].len()
            &&& i == down && parents[i][k] == up ==> after[i][k] == parents.len()
            &&& i != down || parents[i][k] != up ==> after[i][k] == parents[i][k]
        }),
{
}

proof fn an_earlier_target_is_found(kind: AdapterKind, ps: Seq<PatternModel>, from: int, j: int)
    requires
        0 <= from <= j < ps.len(),
        elements::target_of(kind, ps[j]) is Some,
        forall|m: int| from <= m < j ==> elements::target_of(kind, #[trigger] ps[m]) is None,
    ensures
        plug::first_target(kind, ps, from) == elements::target_of(kind, ps[j]),
    decreases j - from,
{
    if from < j {
        assert(elements::target_of(kind, ps[from]) is None);
        an_earlier_target_is_found(kind, ps, from + 1, j);
    }
}

proof fn no_target_is_found(kind: AdapterKind, ps: Seq<PatternModel>, from: int)
    requires
        0 <= from,
        forall|m: int|
            from <= m < ps.len() ==> elements::target_of(kind, #[trigger] ps[m]) is None,
    ensures
        plug::first_target(kind, ps, from) is None,
    decreases ps.len() - from,
{
    if from < ps.len() {
        assert(elements::target_of(kind, ps[from]) is None);
        no_target_is_found(kind, ps, from + 1);
    }
}

/// An adapter goes to the target of the first alternative that names one,
/// and nowhere where none does.
pub proof fn the_first_named_target_counts(kind: AdapterKind, ps: Seq<PatternModel>, j: int)
    ensures
        0 <= j < ps.len() && elements::target_of(kind, ps[j]) is Some && (forall|m: int|
            0 <= m < j ==> elements::target_of(kind, #[trigger] ps[m]) is None)
            ==> plug::first_target(kind, ps, 0) == elements::target_of(kind, ps[j]),
        (forall|m: int| 0 <= m < ps.len() ==> elements::target_of(kind, #[trigger] ps[m]) is None)
            ==> plug::first_target(kind, ps, 0) is None,
{
    if 0 <= j < ps.len() && elements::target_of(kind, ps[j]) is Some && (forall|m: int|
        0 <= m < j ==> elements::target_of(kind, #[trigger] ps[m]) is None) {
        an_earlier_target_is_found(kind, ps, 0, j);
    }
    if forall|m: int| 0 <= m < ps.len() ==> elements::target_of(kind, #[trigger] ps[m]) is None {
        no_target_is_found(kind, ps, 0);
    }
}

/// The adapters are tried in turn: one that finds no target is passed over,
/// one that finds a target is taken with it, and whatever comes behind does
/// not matter.
pub proof fn the_first_fitting_adapter_is_taken(
    before: Seq<(AdapterKind, ConstraintModel)>,
    adapter: (AdapterKind, ConstraintModel),
    behind: Seq<(AdapterKind, ConstraintModel)>,
    offered: Seq<PatternModel>,
    accepts: Seq<PatternModel>,
)
    requires
        forall|a: int|
            0 <= a < before.len() ==> plug::first_target(
                (#[trigger] before[a]).0,
                plug::handed_on(before[a].1, offered, accepts),
                0,
            ) is None,
    ensures
        plug::plug_of(before, offered, accepts, 0) is None,
        match plug::first_target(
            adapter.0,
            plug::handed_on(adapter.1, offered, accepts),
            0,
        ) {
            Some(crs) => plug::plug_of(before + seq![adapter] + behind, offered, accepts, 0)
                == Some((adapter.0, crs)),
            None => plug::plug_of(before + seq![adapter], offered, accepts, 0) is None,
        },
{
    let most = before + seq![adapter];
    let all = most + behind;
    let n = before.len() as int;
    passing_over(before, offered, accepts, 0, n);
    assert forall|a: int| 0 <= a < n implies plug::first_target(
        (#[trigger] all[a]).0,
        plug::handed_on(all[a].1, offered, accepts),
        0,
    ) is None by {
        assert(all[a] == before[a]);
    }
    assert forall|a: int| 0 <= a < n implies plug::first_target(
        (#[trigger] most[a]).0,
        plug::handed_on(most[a].1, offered, accepts),
        0,
    ) is None by {
        assert(most[a] == before[a]);
    }
    passing_over(all, offered, accepts, 0, n);
    passing_over(most, offered, accepts, 0, n);
    assert(all[n] == adapter);
    assert(most[n] == adapter);
    assert(plug::plug_of(most, offered, accepts, n + 1) is None);
}

proof fn passing_over(
    adapters: Seq<(AdapterKind, ConstraintModel)>,
    offered: Seq<PatternModel>,
    accepts: Seq<PatternModel>,
    a: int,
    n: int,
)
    requires
        0 <= a <= n <= adapters.len(),
        forall|b: int|
            a <= b < n ==> plug::first_target(
                (#[trigger] adapters[b]).0,
                plug::handed_on(adapters[b].1, offered, accepts),
                0,
            ) is None,
    ensures
        plug::plug_of(adapters, offered, accepts, a) == plug::plug_of(
            adapters,
            offered,
            accepts,
            n,
        ),
    decreases n - a,
{
    if a < n {
        let t = plug::first_target(
            adapters[a].0,
            plug::handed_on(adapters[a].1, offered, accepts),
            0,
        );
        assert(t is None);
        passing_over(adapters, offered, accepts, a + 1, n);
    }
}

/// What is asked of the link from one parent is what the node accepts and
/// every other parent would put out.
pub proof fn the_other_inputs_ask_too(
    links: Links,
    accepts: Seq<PatternModel>,
    parents: Seq<usize>,
    up: usize,
    k: int,
    o: Offer,
)
    requires
        0 <= k <= parents.len(),
        caps_laws::proper_set(accepts),
        forall|i: int|
            0 <= i < parents.len() ==> caps_laws::proper_set(links[#[trigger] parents[i] as int]),
    ensures
        caps_laws::proper_set(plug::asked(links, accepts, parents, up, k)),
        caps_laws::set_admits(plug::asked(links, accepts, parents, up, k), o) <==> (
        caps_laws::set_admits(accepts, o) && forall|i: int|
            0 <= i < k && parents[i] != up ==> caps_laws::set_admits(
                links[#[trigger] parents[i] as int],
                o,
            )),
    decreases k,
{
    if k > 0 {
        the_other_inputs_ask_too(links, accepts, parents, up, k - 1, o);
        let before = plug::asked(links, accepts, parents, up, k - 1);
        assert(caps_laws::proper_set(links[parents[k - 1] as int]));
        caps_laws::set_meet_admits(before, links[parents[k - 1] as int], o);
    }
}

/// A link that already gives something of what is asked needs no adapter,
/// nor does an adapter's own link.
pub proof fn a_link_that_fits_needs_no_adapter(
    adapters: Seq<(AdapterKind, ConstraintModel)>,
    links: Links,
    lead: Seq<PatternModel>,
    base: int,
    up: usize,
    o: Offer,
)
    requires
        caps_laws::proper_set(lead),
        caps_laws::proper_set(links[up as int]),
        base <= up || (caps_laws::set_admits(lead, o) && caps_laws::set_admits(
            links[up as int],
            o,
        )),
    ensures
        plug::needed(adapters, links, lead, base, up) is None,
{
    if up < base {
        caps_laws::set_meet_admits(lead, links[up as int], o);
    }
}

/// Parents that disagree settle on what the first of them offers of what
/// the node accepts, where it offers anything of it.
pub proof fn parents_settle_on_the_first(
    links: Links,
    accepts: Seq<PatternModel>,
    parents: Seq<usize>,
    o: Offer,
    other: Offer,
)
    requires
        parents.len() > 0,
        caps_laws::proper_set(accepts),
        caps_laws::proper_set(links[parents[0] as int]),
        caps_laws::set_admits(accepts, o),
        caps_laws::set_admits(links[parents[0] as int], o),
    ensures
        caps_laws::set_admits(plug::settled_on(links, accepts, parents), other) <==> (
        caps_laws::set_admits(accepts, other) && caps_laws::set_admits(
            links[parents[0] as int],
            other,
        )),
{
    caps_laws::set_meet_admits(links[parents[0] as int], accepts, o);
    caps_laws::set_meet_admits(links[parents[0] as int], accepts, other);
}

/// An adapter on a link hands on its own kind, on its target and on no other
/// reference system, with the tile size that it was given; a raster keeps
/// its type and bands too.
pub proof fn an_adapter_hands_on_its_target(
    s: Shape,
    up: usize,
    down: usize,
    kind: AdapterKind,
    crs: Crs,
    from: PatternModel,
    o: Offer,
)
    requires
        match kind {
            AdapterKind::Raster => from is Raster,
            AdapterKind::Vector => from is Vector,
        },
    ensures
        ({
            let after = plug::with_adapter(s, up, down, (kind, crs));
            &&& after.demands.len() == s.demands.len() + 1
            &&& after.demands.take(s.demands.len() as int) == s.demands
            &&& match after.demands[s.demands.len() as int] {
                ConstraintModel::Derived { passthrough, output, .. } => caps::projected(
                    from,
                    output,
                    passthrough,
                ).admits(o) <==> (match (from, o) {
                    (
                        PatternModel::Raster(r),
                        Offer::Raster { dtype, bands, crs: c, resolution, chunk_px },
                    ) => c == crs && r.dtype.allows(dtype) && r.bands.allows(bands)
                        && r.chunk_px.allows(chunk_px) && caps::ResRange::unbounded().holds(
                        resolution,
                    ),
                    (
                        PatternModel::Vector(v),
                        Offer::Vector { crs: c, resolution, chunk_px },
                    ) => c == crs && v.chunk_px.allows(chunk_px)
                        && caps::ResRange::unbounded().holds(resolution),
                    _ => false,
                }),
                _ => false,
            }
        }),
{
    let after = plug::with_adapter(s, up, down, (kind, crs));
    assert(after.demands.take(s.demands.len() as int) =~= s.demands);
    assert(seq![crs][0] == crs);
}

} // verus!
