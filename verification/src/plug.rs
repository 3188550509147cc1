//! Adapters on links: where the two sides of a link agree on all but the
//! reference system, negotiation puts a reprojection between them. The new
//! node comes last in the graph, behind its consumer.
//!
//! What a link of a join is asked for comes from the other inputs as well:
//! where they agree, they name the reference system; where they do not, the
//! first input does, and every other that differs gets a reprojection.

use vstd::prelude::*;

use crate::caps;
use crate::caps::{
    Caps, CapsPattern, CapsSet, Constraint, ConstraintModel, Crs, FieldModel, PatternModel,
};
use crate::elements;
use crate::elements::{Adapter, AdapterKind, Reproject, VecReproject};
use crate::error::{Error, LinkFault};
use crate::graph;
use crate::graph::{Graph, Node, NodeId};
use crate::solver;
use crate::solver::{Fault, Links, Problem};

verus! {

// Splicing.

/// Parents with one replaced wherever it occurs.
pub open spec fn rewired(parents: Seq<usize>, from: usize, to: usize) -> Seq<usize> {
    Seq::new(
        parents.len(),
        |k: int|
            if parents[k] == from {
                to
            } else {
                parents[k]
            },
    )
}

/// The parents of a graph with a node put between two.
pub open spec fn spliced_parents(
    parents: Seq<Seq<usize>>,
    up: usize,
    down: usize,
) -> Seq<Seq<usize>> {
    parents.update(
        down as int,
        rewired(parents[down as int], up, parents.len() as usize),
    ).push(seq![up])
}

proof fn splicing_stays_acyclic(parents: Seq<Seq<usize>>, up: usize, down: usize)
    requires
        graph::parents_known(parents),
        graph::acyclic(parents),
        up < parents.len(),
        down < parents.len(),
        parents.len() < usize::MAX,
        parents[down as int].contains(up),
    ensures
        graph::parents_known(spliced_parents(parents, up, down)),
        graph::acyclic(spliced_parents(parents, up, down)),
{
    let after = spliced_parents(parents, up, down);
    let n = parents.len() as int;
    let rank = choose|rank: Seq<nat>| graph::ranked(parents, rank);
    let at = choose|k: int| 0 <= k < parents[down as int].len() && parents[down as int][k] == up;
    assert(rank[parents[down as int][at] as int] < rank[down as int]);
    let wider = Seq::new(parents.len(), |i: int| 2 * rank[i]).push(2 * rank[up as int] + 1);
    assert forall|i: int, k: int|
        #![trigger after[i][k]]
        0 <= i < after.len() && 0 <= k < after[i].len() implies after[i][k] < after.len()
        && wider[after[i][k] as int] < wider[i] by {
        if i < n {
            assert(parents[i][k] < parents.len());
            assert(rank[parents[i][k] as int] < rank[i]);
        }
    }
    assert(graph::ranked(after, wider));
}

impl Graph {
    /// Put a transform between a node and one that reads from it. The new
    /// node comes last.
    pub fn splice(&mut self, up: NodeId, down: NodeId, constraint: Constraint) -> (id: NodeId)
        requires
            old(self).wf(),
            old(self).nodes@.len() < usize::MAX,
            up.0 < old(self).nodes@.len(),
            down.0 < old(self).nodes@.len(),
            old(self).parent_lists()[down.0 as int].contains(up.0),
        ensures
            final(self).wf(),
            id.0 == old(self).nodes@.len(),
            final(self).parent_lists() == spliced_parents(
                old(self).parent_lists(),
                up.0,
                down.0,
            ),
            final(self).demands() == old(self).demands().push(constraint@),
    {
        let ghost before = *self;
        let ghost parents = self.parent_lists();
        let n: usize = self.nodes.len();
        let fresh = NodeId(n);
        let node = self.nodes.remove(down.0);
        let ghost held = node;
        let moved = match node {
            Node::Source { constraint } => Node::Source { constraint },
            Node::Transform { parent, constraint } => Node::Transform {
                parent: if parent.0 == up.0 {
                    fresh
                } else {
                    parent
                },
                constraint,
            },
            Node::Fanin { parents: old_parents, constraint } => {
                let mut next: Vec<NodeId> = Vec::new();
                for k in 0..old_parents.len()
                    invariant
                        fresh.0 == n,
                        graph::indices(next@) == rewired(
                            graph::indices(old_parents@),
                            up.0,
                            n,
                        ).take(k as int),
                        next@.len() == k,
                {
                    let p = old_parents[k];
                    next.push(
                        if p.0 == up.0 {
                            fresh
                        } else {
                            p
                        },
                    );
                    assert(graph::indices(next@) =~= rewired(
                        graph::indices(old_parents@),
                        up.0,
                        n,
                    ).take(k + 1));
                }
                assert(graph::indices(next@) =~= rewired(graph::indices(old_parents@), up.0, n));
                Node::Fanin { parents: next, constraint }
            },
        };
        assert(moved.parent_indices() =~= rewired(held.parent_indices(), up.0, n));
        assert(moved.demand() == held.demand());
        let ghost placed = moved;
        self.nodes.insert(down.0, moved);
        let last = Node::Transform { parent: up, constraint };
        let ghost added = last;
        self.nodes.push(last);
        proof {
            assert(self.nodes@ =~= before.nodes@.update(down.0 as int, placed).push(added));
            assert(self.parent_lists() =~= spliced_parents(parents, up.0, down.0)) by {
                assert(added.parent_indices() =~= seq![up.0]);
            }
            assert(self.demands() =~= before.demands().push(constraint@));
            splicing_stays_acyclic(parents, up.0, down.0);
        }
        fresh
    }
}

/// Splicing changes the parents of one node, and only where it read from
/// the other.
pub proof fn splicing_touches_one_link(parents: Seq<Seq<usize>>, up: usize, down: usize, i: int, k: int)
    requires
        0 <= i < parents.len(),
        down < parents.len(),
        0 <= k < parents[i].len(),
        i != down || parents[i][k] != up,
    ensures
        spliced_parents(parents, up, down)[i][k] == parents[i][k],
{
}

// What a link is offered.

/// What each node would put out: the forward sweep from place `k` on, past
/// the nodes at which it fails.
pub open spec fn offers(p: Problem, links: Links, k: int) -> Links
    decreases p.order.len() - k,
{
    if k >= p.order.len() {
        links
    } else {
        let i = p.order[k];
        match solver::forward_step(p.demands[i as int], p.parents[i as int], links, i) {
            Err(_) => offers(p, links, k + 1),
            Ok(link) => offers(p, links.update(i as int, link), k + 1),
        }
    }
}

/// What each node would put out, before its consumers narrow it.
pub open spec fn all_offers(p: Problem) -> Links {
    offers(p, Seq::new(p.size(), |i: int| caps::any_model()), 0)
}

/// What an adapter on a link could hand on.
pub open spec fn handed_on(
    template: ConstraintModel,
    offered: Seq<PatternModel>,
    accepts: Seq<PatternModel>,
) -> Seq<PatternModel> {
    caps::set_meet(template.outputs(caps::set_meet(offered, template.accepts())), accepts)
}

/// The first target that the patterns from the `j`-th on name.
pub open spec fn first_target(kind: AdapterKind, patterns: Seq<PatternModel>, j: int) -> Option<Crs>
    decreases patterns.len() - j,
{
    if j >= patterns.len() {
        None
    } else {
        match elements::target_of(kind, patterns[j]) {
            Some(crs) => Some(crs),
            None => first_target(kind, patterns, j + 1),
        }
    }
}

/// What is known of some adapters.
pub open spec fn adapter_models(v: Seq<Adapter>) -> Seq<(AdapterKind, ConstraintModel)> {
    Seq::new(v.len(), |i: int| (v[i].kind, v[i].template@))
}

/// The first adapter from the `a`-th on that makes a link agree, and its
/// target.
pub open spec fn plug_of(
    adapters: Seq<(AdapterKind, ConstraintModel)>,
    offered: Seq<PatternModel>,
    accepts: Seq<PatternModel>,
    a: int,
) -> Option<(AdapterKind, Crs)>
    decreases adapters.len() - a,
{
    if a >= adapters.len() {
        None
    } else {
        match first_target(adapters[a].0, handed_on(adapters[a].1, offered, accepts), 0) {
            Some(crs) => Some((adapters[a].0, crs)),
            None => plug_of(adapters, offered, accepts, a + 1),
        }
    }
}

/// The constraint of an adapter with its target.
pub open spec fn plugged_demand(kind: AdapterKind, crs: Crs) -> ConstraintModel {
    match kind {
        AdapterKind::Raster => elements::raster_reprojection(FieldModel::OneOf(seq![crs])),
        AdapterKind::Vector => elements::vector_reprojection(FieldModel::OneOf(seq![crs])),
    }
}

fn find_target(adapter: &Adapter, set: &CapsSet) -> (r: Option<Crs>)
    ensures
        r == first_target(adapter.kind, set@, 0),
{
    let n: usize = set.alternatives.len();
    for j in 0..n
        invariant
            n == set.alternatives@.len(),
            n == set@.len(),
            first_target(adapter.kind, set@, 0) == first_target(adapter.kind, set@, j as int),
    {
        assert(set@[j as int] == set.alternatives@[j as int]@);
        if let Some(crs) = adapter.target(&set.alternatives[j]) {
            return Some(crs);
        }
    }
    None
}

/// The first adapter that makes a link agree, and its target.
pub fn find_plug(adapters: &Vec<Adapter>, offered: &CapsSet, accepts: &CapsSet) -> (r: Option<
    (AdapterKind, Crs),
>)
    ensures
        r == plug_of(adapter_models(adapters@), offered@, accepts@, 0),
{
    let ghost models = adapter_models(adapters@);
    for a in 0..adapters.len()
        invariant
            models == adapter_models(adapters@),
            plug_of(models, offered@, accepts@, 0) == plug_of(
                models,
                offered@,
                accepts@,
                a as int,
            ),
    {
        let adapter = &adapters[a];
        let through = offered.intersect(&adapter.template.input_set());
        let common = adapter.template.output_set(&through).intersect(accepts);
        if let Some(crs) = find_target(adapter, &common) {
            return Some((adapter.kind, crs));
        }
    }
    None
}

fn built(kind: AdapterKind, crs: Crs) -> (r: Constraint)
    ensures
        r@ == plugged_demand(kind, crs),
{
    match kind {
        AdapterKind::Raster => Reproject::new(crs).constraint(),
        AdapterKind::Vector => VecReproject::new(crs).constraint(),
    }
}

/// A pattern of an adapter's kind allows a reference system.
pub open spec fn takes_crs(kind: AdapterKind, p: PatternModel, crs: Crs) -> bool {
    match (kind, p) {
        (AdapterKind::Raster, PatternModel::Raster(r)) => r.crs.allows(crs),
        (AdapterKind::Vector, PatternModel::Vector(v)) => v.crs.allows(crs),
        _ => false,
    }
}

/// One of some patterns of an adapter's kind allows a reference system.
pub open spec fn some_take(kind: AdapterKind, ps: Seq<PatternModel>, crs: Crs) -> bool {
    exists|j: int| 0 <= j < ps.len() && takes_crs(kind, #[trigger] ps[j], crs)
}

proof fn a_target_is_taken(kind: AdapterKind, ps: Seq<PatternModel>, j: int)
    requires
        0 <= j,
        first_target(kind, ps, j) is Some,
    ensures
        some_take(kind, ps, first_target(kind, ps, j)->0),
    decreases ps.len() - j,
{
    if elements::target_of(kind, ps[j]) is Some {
        let crs = elements::target_of(kind, ps[j])->0;
        match ps[j] {
            PatternModel::Raster(r) => {
                assert(r.crs->OneOf_0[0] == crs);
            },
            PatternModel::Vector(v) => {
                assert(v.crs->OneOf_0[0] == crs);
            },
            _ => {},
        }
        assert(takes_crs(kind, ps[j], crs));
    } else {
        a_target_is_taken(kind, ps, j + 1);
    }
}

proof fn a_row_is_taken(
    kind: AdapterKind,
    set: Seq<PatternModel>,
    a: PatternModel,
    bs: Seq<PatternModel>,
    crs: Crs,
)
    requires
        some_take(kind, caps::row_meet(set, a, bs), crs),
    ensures
        some_take(kind, set, crs) || some_take(kind, bs, crs),
    decreases bs.len(),
{
    if bs.len() > 0 {
        let before = caps::row_meet(set, a, bs.drop_last());
        let all = caps::row_meet(set, a, bs);
        let j = choose|j: int| 0 <= j < all.len() && takes_crs(kind, #[trigger] all[j], crs);
        if j < before.len() {
            assert(takes_crs(kind, before[j], crs));
            a_row_is_taken(kind, set, a, bs.drop_last(), crs);
            if some_take(kind, bs.drop_last(), crs) {
                let k = choose|k: int|
                    0 <= k < bs.len() - 1 && takes_crs(kind, #[trigger] bs.drop_last()[k], crs);
                assert(takes_crs(kind, bs[k], crs));
            }
        } else {
            match (a, bs.last()) {
                (PatternModel::Raster(x), PatternModel::Raster(y)) => {
                    caps::field_meet_allows(x.crs, y.crs, crs);
                },
                (PatternModel::Vector(x), PatternModel::Vector(y)) => {
                    caps::field_meet_allows(x.crs, y.crs, crs);
                },
                _ => {},
            }
            assert(takes_crs(kind, bs[bs.len() - 1], crs));
        }
    }
}

proof fn a_meet_is_taken(
    kind: AdapterKind,
    xs: Seq<PatternModel>,
    ys: Seq<PatternModel>,
    crs: Crs,
)
    requires
        some_take(kind, caps::set_meet(xs, ys), crs),
    ensures
        some_take(kind, ys, crs),
    decreases xs.len(),
{
    if xs.len() > 0 {
        let rest = caps::set_meet(xs.drop_last(), ys);
        a_row_is_taken(kind, rest, xs.last(), ys, crs);
        if some_take(kind, rest, crs) {
            a_meet_is_taken(kind, xs.drop_last(), ys, crs);
        }
    }
}

/// An adapter is only put in for a reference system that the node behind it
/// accepts.
pub proof fn a_plug_is_accepted(
    adapters: Seq<(AdapterKind, ConstraintModel)>,
    offered: Seq<PatternModel>,
    accepts: Seq<PatternModel>,
    a: int,
)
    requires
        0 <= a,
        plug_of(adapters, offered, accepts, a) is Some,
    ensures
        ({
            let (kind, crs) = plug_of(adapters, offered, accepts, a)->0;
            some_take(kind, accepts, crs)
        }),
    decreases adapters.len() - a,
{
    let (kind, template) = adapters[a];
    let common = handed_on(template, offered, accepts);
    match first_target(kind, common, 0) {
        Some(crs) => {
            a_target_is_taken(kind, common, 0);
            a_meet_is_taken(
                kind,
                template.outputs(caps::set_meet(offered, template.accepts())),
                accepts,
                crs,
            );
        },
        None => {
            a_plug_is_accepted(adapters, offered, accepts, a + 1);
        },
    }
}

// Negotiation with adapters.

/// A graph as negotiation sees it.
pub struct Shape {
    pub demands: Seq<ConstraintModel>,
    pub parents: Seq<Seq<usize>>,
}

impl Shape {
    pub open spec fn problem(self) -> Problem {
        Problem {
            demands: self.demands,
            parents: self.parents,
            order: graph::walk_order(self.parents),
        }
    }
}

/// The shape of a graph.
pub open spec fn shape_of(g: &Graph) -> Shape {
    Shape { demands: g.demands(), parents: g.parent_lists() }
}

/// The link that negotiation failed on, where it leads into one of the
/// first `base` nodes.
pub open spec fn failed_link(s: Shape, base: int) -> Option<(usize, usize)> {
    match s.problem().solution() {
        Err(Fault::EmptyLink { upstream, downstream, .. }) => if downstream < base
            && s.parents[downstream as int].contains(upstream) {
            Some((upstream, downstream))
        } else {
            None
        },
        _ => None,
    }
}

/// What is asked of the link from one parent: what the node accepts, met
/// with what its first `k` parents other than that one would put out.
pub open spec fn asked(
    links: Links,
    accepts: Seq<PatternModel>,
    parents: Seq<usize>,
    up: usize,
    k: int,
) -> Seq<PatternModel>
    decreases k,
{
    if k <= 0 {
        accepts
    } else {
        let before = asked(links, accepts, parents, up, k - 1);
        if parents[k - 1] == up {
            before
        } else {
            caps::set_meet(before, links[parents[k - 1] as int])
        }
    }
}

/// A graph with an adapter on a link.
pub open spec fn with_adapter(s: Shape, up: usize, down: usize, plug: (AdapterKind, Crs)) -> Shape {
    Shape {
        demands: s.demands.push(plugged_demand(plug.0, plug.1)),
        parents: spliced_parents(s.parents, up, down),
    }
}

/// The adapter that the link from a node needs to give what is asked: none
/// where it does so already, or is an adapter's own.
pub open spec fn needed(
    adapters: Seq<(AdapterKind, ConstraintModel)>,
    links: Links,
    lead: Seq<PatternModel>,
    base: int,
    up: usize,
) -> Option<(AdapterKind, Crs)> {
    if up < base && caps::set_meet(lead, links[up as int]).len() == 0 {
        plug_of(adapters, links[up as int], lead, 0)
    } else {
        None
    }
}

/// A graph in which the links into a node, from its `k`-th of `m` parents
/// on, are brought to what is asked, with at most so many adapters.
pub open spec fn levelled(
    s: Shape,
    adapters: Seq<(AdapterKind, ConstraintModel)>,
    links: Links,
    lead: Seq<PatternModel>,
    base: int,
    down: usize,
    k: int,
    m: int,
    most: nat,
) -> Shape
    decreases m - k,
{
    if k >= m || most == 0 {
        s
    } else {
        let up = s.parents[down as int][k];
        match needed(adapters, links, lead, base, up) {
            None => levelled(s, adapters, links, lead, base, down, k + 1, m, most),
            Some(plug) => levelled(
                with_adapter(s, up, down, plug),
                adapters,
                links,
                lead,
                base,
                down,
                k + 1,
                m,
                (most - 1) as nat,
            ),
        }
    }
}

/// What the parents of a node settle on where they disagree: what the first
/// one offers of what the node accepts, else what the node accepts.
pub open spec fn settled_on(
    links: Links,
    accepts: Seq<PatternModel>,
    parents: Seq<usize>,
) -> Seq<PatternModel> {
    let own = caps::set_meet(links[parents[0] as int], accepts);
    if own.len() > 0 {
        own
    } else {
        accepts
    }
}

/// A graph with adapters for a link that fails. Where the other parents of
/// the node agree on what they ask of the link, it gets an adapter to that;
/// else the parents settle, and every link that disagrees gets one.
pub open spec fn adapted(
    s: Shape,
    adapters: Seq<(AdapterKind, ConstraintModel)>,
    base: int,
    up: usize,
    down: usize,
    most: nat,
) -> Shape {
    let links = all_offers(s.problem());
    let accepts = s.demands[down as int].accepts();
    let parents = s.parents[down as int];
    let own = if up < base {
        plug_of(
            adapters,
            links[up as int],
            asked(links, accepts, parents, up, parents.len() as int),
            0,
        )
    } else {
        None
    };
    match own {
        Some(plug) => with_adapter(s, up, down, plug),
        None => levelled(
            s,
            adapters,
            links,
            settled_on(links, accepts, parents),
            base,
            down,
            0,
            parents.len() as int,
            most,
        ),
    }
}

/// A graph with adapters on its failing links: each time negotiation fails
/// on a link into the first `base` nodes, it is adapted, with at most so
/// many adapters in all.
pub open spec fn plugged(
    s: Shape,
    adapters: Seq<(AdapterKind, ConstraintModel)>,
    base: int,
    most: nat,
) -> Shape
    decreases most,
{
    if most == 0 {
        s
    } else {
        match failed_link(s, base) {
            None => s,
            Some((up, down)) => {
                let next = adapted(s, adapters, base, up, down, most);
                let added = next.demands.len() - s.demands.len();
                if 0 < added <= most {
                    plugged(next, adapters, base, (most - added) as nat)
                } else {
                    s
                }
            },
        }
    }
}

/// Where negotiation succeeds, nothing is put on any link.
pub proof fn an_agreeing_graph_is_left_alone(
    s: Shape,
    adapters: Seq<(AdapterKind, ConstraintModel)>,
    base: int,
    most: nat,
)
    requires
        s.problem().solution() is Ok,
    ensures
        plugged(s, adapters, base, most) == s,
{
}

pub(crate) proof fn levelling_appends(
    s: Shape,
    adapters: Seq<(AdapterKind, ConstraintModel)>,
    links: Links,
    lead: Seq<PatternModel>,
    base: int,
    down: usize,
    k: int,
    m: int,
    most: nat,
)
    ensures
        ({
            let r = levelled(s, adapters, links, lead, base, down, k, m, most);
            &&& s.demands.len() <= r.demands.len() <= s.demands.len() + most
            &&& r.demands.take(s.demands.len() as int) == s.demands
        }),
    decreases m - k,
{
    let r = levelled(s, adapters, links, lead, base, down, k, m, most);
    let n = s.demands.len() as int;
    if k < m && most > 0 {
        let up = s.parents[down as int][k];
        match needed(adapters, links, lead, base, up) {
            None => levelling_appends(s, adapters, links, lead, base, down, k + 1, m, most),
            Some(plug) => {
                let next = with_adapter(s, up, down, plug);
                levelling_appends(
                    next,
                    adapters,
                    links,
                    lead,
                    base,
                    down,
                    k + 1,
                    m,
                    (most - 1) as nat,
                );
                assert(r.demands.take(n) =~= r.demands.take(n + 1).take(n));
                assert(next.demands.take(n) =~= s.demands);
            },
        }
    } else {
        assert(r.demands.take(n) =~= s.demands);
    }
}

/// Adapters come behind the nodes that were there, which keep their places
/// and their demands.
pub proof fn nodes_keep_their_places(
    s: Shape,
    adapters: Seq<(AdapterKind, ConstraintModel)>,
    base: int,
    most: nat,
)
    ensures
        plugged(s, adapters, base, most).demands.len() >= s.demands.len(),
        plugged(s, adapters, base, most).demands.len() <= s.demands.len() + most,
        plugged(s, adapters, base, most).demands.take(s.demands.len() as int) == s.demands,
    decreases most,
{
    let r = plugged(s, adapters, base, most);
    let n = s.demands.len() as int;
    if most > 0 && failed_link(s, base) is Some {
        let (up, down) = failed_link(s, base)->0;
        let next = adapted(s, adapters, base, up, down, most);
        let links = all_offers(s.problem());
        let accepts = s.demands[down as int].accepts();
        let parents = s.parents[down as int];
        levelling_appends(
            s,
            adapters,
            links,
            settled_on(links, accepts, parents),
            base,
            down,
            0,
            parents.len() as int,
            most,
        );
        assert(s.demands.push(next.demands.last()).take(n) =~= s.demands);
        assert(next.demands.take(n) == s.demands);
        let added = next.demands.len() - n;
        if 0 < added <= most {
            nodes_keep_their_places(next, adapters, base, (most - added) as nat);
            assert(r.demands.take(n) =~= r.demands.take(n + added).take(n));
        } else {
            assert(r.demands.take(n) =~= s.demands);
        }
    } else {
        assert(r.demands.take(n) =~= s.demands);
    }
}

fn count_links(g: &Graph) -> (n: usize)
    requires
        links_of(g.parent_lists(), g.nodes@.len() as int) <= usize::MAX,
    ensures
        n == links_of(g.parent_lists(), g.nodes@.len() as int),
{
    let ghost ps = g.parent_lists();
    let len: usize = g.len();
    let mut n: usize = 0;
    for i in 0..len
        invariant
            len == g.nodes@.len(),
            ps == g.parent_lists(),
            links_of(ps, len as int) <= usize::MAX,
            n == links_of(ps, i as int),
    {
        let own = g.parents(NodeId(i));
        proof {
            links_grow(ps, i + 1, len as int);
        }
        n = n + own.len();
    }
    n
}

/// How many links lead into the first `n` nodes.
pub open spec fn links_of(parents: Seq<Seq<usize>>, n: int) -> nat
    decreases n,
{
    if n <= 0 {
        0
    } else {
        links_of(parents, n - 1) + parents[n - 1].len()
    }
}

proof fn links_grow(parents: Seq<Seq<usize>>, a: int, b: int)
    requires
        a <= b,
    ensures
        links_of(parents, a) <= links_of(parents, b),
    decreases b - a,
{
    if a < b {
        links_grow(parents, a, b - 1);
    }
}

fn lists_parent(g: &Graph, up: usize, down: usize) -> (r: bool)
    requires
        down < g.nodes@.len(),
    ensures
        r == g.parent_lists()[down as int].contains(up),
{
    let ps = g.parents(NodeId(down));
    for k in 0..ps.len()
        invariant
            ps@ == g.parent_lists()[down as int],
            forall|j: int| 0 <= j < k ==> #[trigger] ps@[j] != up,
    {
        if ps[k] == up {
            assert(ps@.contains(up));
            return true;
        }
    }
    false
}

fn offers_of(g: &Graph, nodes: &Vec<usize>) -> (r: Vec<CapsSet>)
    requires
        g.wf(),
        forall|k: int| 0 <= k < nodes@.len() ==> #[trigger] nodes@[k] < g.nodes@.len(),
    ensures
        r@.len() == nodes@.len(),
        forall|k: int|
            0 <= k < r@.len() ==> (#[trigger] r@[k])@ == all_offers(solver::problem_of(g))[nodes@[k] as int],
{
    let mut r: Vec<CapsSet> = Vec::new();
    for k in 0..nodes.len()
        invariant
            g.wf(),
            forall|k: int| 0 <= k < nodes@.len() ==> #[trigger] nodes@[k] < g.nodes@.len(),
            r@.len() == k,
            forall|j: int|
                0 <= j < k ==> (#[trigger] r@[j])@ == all_offers(
                    solver::problem_of(g),
                )[nodes@[j] as int],
    {
        r.push(solver::offer_of(g, nodes[k]));
    }
    r
}

fn asked_of(accepts: &CapsSet, parents: &Vec<usize>, offers: &Vec<CapsSet>, up: usize, Ghost(
    links,
): Ghost<Links>) -> (r: CapsSet)
    requires
        offers@.len() == parents@.len(),
        forall|k: int|
            0 <= k < offers@.len() ==> (#[trigger] offers@[k])@ == links[parents@[k] as int],
    ensures
        r@ == asked(links, accepts@, parents@, up, parents@.len() as int),
{
    let mut r = accepts.copied();
    for k in 0..parents.len()
        invariant
            offers@.len() == parents@.len(),
            forall|k: int|
                0 <= k < offers@.len() ==> (#[trigger] offers@[k])@ == links[parents@[k] as int],
            r@ == asked(links, accepts@, parents@, up, k as int),
    {
        if parents[k] != up {
            r = r.intersect(&offers[k]);
        }
    }
    r
}

/// Bring the links into a node to what is asked. `offers` is what its
/// parents would put out.
fn level(
    g: &mut Graph,
    adapters: &Vec<Adapter>,
    offers: &Vec<CapsSet>,
    lead: &CapsSet,
    base: usize,
    down: usize,
    most: usize,
    Ghost(links): Ghost<Links>,
)
    requires
        old(g).wf(),
        base <= old(g).nodes@.len(),
        old(g).nodes@.len() + most <= usize::MAX,
        down < old(g).nodes@.len(),
        offers@.len() == old(g).parent_lists()[down as int].len(),
        forall|k: int|
            0 <= k < offers@.len() ==> (#[trigger] offers@[k])@ == links[old(
                g,
            ).parent_lists()[down as int][k] as int],
    ensures
        final(g).wf(),
        shape_of(final(g)) == levelled(
            shape_of(old(g)),
            adapter_models(adapters@),
            links,
            lead@,
            base as int,
            down,
            0,
            offers@.len() as int,
            most as nat,
        ),
{
    let ghost models = adapter_models(adapters@);
    let ghost start = shape_of(g);
    let ghost whole = levelled(
        start,
        models,
        links,
        lead@,
        base as int,
        down,
        0,
        offers@.len() as int,
        most as nat,
    );
    let mut left: usize = most;
    let n: usize = offers.len();
    let mut k: usize = 0;
    while k < n && left > 0
        invariant
            g.wf(),
            models == adapter_models(adapters@),
            n == offers@.len(),
            k <= n,
            down < g.nodes@.len(),
            base <= g.nodes@.len(),
            g.nodes@.len() + left <= usize::MAX,
            start.parents[down as int].len() == n,
            g.parent_lists()[down as int].len() == n,
            forall|j: int|
                0 <= j < n ==> (#[trigger] offers@[j])@ == links[start.parents[down as int][j] as int],
            forall|j: int|
                0 <= j < n ==> (#[trigger] g.parent_lists()[down as int][j]
                    == start.parents[down as int][j] || g.parent_lists()[down as int][j] >= base),
            whole == levelled(
                shape_of(g),
                models,
                links,
                lead@,
                base as int,
                down,
                k as int,
                n as int,
                left as nat,
            ),
        decreases n - k,
    {
        let ps = g.parents(NodeId(down));
        let up: usize = ps[k];
        assert(up == g.parent_lists()[down as int][k as int]);
        assert(g.parent_lists()[down as int][k as int] < g.nodes@.len());
        let ghost s = shape_of(g);
        if up < base {
            assert(offers@[k as int]@ == links[up as int]);
            if lead.intersect(&offers[k]).is_empty() {
                if let Some((kind, crs)) = find_plug(adapters, &offers[k], lead) {
                    let c = built(kind, crs);
                    assert(ps@.contains(up));
                    g.splice(NodeId(up), NodeId(down), c);
                    assert(shape_of(g) == with_adapter(s, up, down, (kind, crs)));
                    left = left - 1;
                    assert forall|j: int| 0 <= j < n implies (#[trigger] g.parent_lists()[down as int][j]
                        == start.parents[down as int][j] || g.parent_lists()[down as int][j]
                        >= base) by {
                        assert(s.parents[down as int][j] == start.parents[down as int][j]
                            || s.parents[down as int][j] >= base);
                    }
                }
            }
        }
        k = k + 1;
    }
}

fn adapt(g: &mut Graph, adapters: &Vec<Adapter>, base: usize, up: usize, down: usize, most: usize)
    requires
        old(g).wf(),
        base <= old(g).nodes@.len(),
        down < base,
        0 < most,
        old(g).nodes@.len() + most <= usize::MAX,
        old(g).parent_lists()[down as int].contains(up),
    ensures
        final(g).wf(),
        old(g).nodes@.len() <= final(g).nodes@.len() <= old(g).nodes@.len() + most,
        shape_of(final(g)) == adapted(
            shape_of(old(g)),
            adapter_models(adapters@),
            base as int,
            up,
            down,
            most as nat,
        ),
        final(g).nodes@.len() == old(g).nodes@.len() ==> shape_of(final(g)) == shape_of(old(g)),
{
    let ghost s = shape_of(g);
    let ghost models = adapter_models(adapters@);
    let ghost links = all_offers(s.problem());
    assert(s.problem() == solver::problem_of(g));
    let parents = g.parents(NodeId(down));
    assert forall|k: int| 0 <= k < parents@.len() implies #[trigger] parents@[k] < g.nodes@.len() by {
        assert(g.parent_lists()[down as int][k] < g.nodes@.len());
    }
    let offers = offers_of(g, &parents);
    let accepts = g.nodes[down].constraint().input_set();
    if up < base {
        let wanted = asked_of(&accepts, &parents, &offers, up, Ghost(links));
        let offered = solver::offer_of(g, up);
        if let Some((kind, crs)) = find_plug(adapters, &offered, &wanted) {
            let c = built(kind, crs);
            g.splice(NodeId(up), NodeId(down), c);
            assert(g.demands().len() == g.nodes@.len());
            return;
        }
    }
    let own = offers[0].intersect(&accepts);
    let lead = if own.is_empty() {
        accepts
    } else {
        own
    };
    proof {
        levelling_appends(
            s,
            models,
            links,
            lead@,
            base as int,
            down,
            0,
            parents@.len() as int,
            most as nat,
        );
        levelling_nothing(
            s,
            models,
            links,
            lead@,
            base as int,
            down,
            0,
            parents@.len() as int,
            most as nat,
        );
    }
    level(g, adapters, &offers, &lead, base, down, most, Ghost(links));
    assert(shape_of(g).demands.len() == g.nodes@.len());
    assert(s.demands.len() == old(g).nodes@.len());
}

pub(crate) proof fn levelling_nothing(
    s: Shape,
    adapters: Seq<(AdapterKind, ConstraintModel)>,
    links: Links,
    lead: Seq<PatternModel>,
    base: int,
    down: usize,
    k: int,
    m: int,
    most: nat,
)
    ensures
        ({
            let r = levelled(s, adapters, links, lead, base, down, k, m, most);
            r.demands.len() == s.demands.len() ==> r == s
        }),
    decreases m - k,
{
    if k < m && most > 0 {
        let up = s.parents[down as int][k];
        match needed(adapters, links, lead, base, up) {
            None => levelling_nothing(s, adapters, links, lead, base, down, k + 1, m, most),
            Some(plug) => {
                levelling_appends(
                    with_adapter(s, up, down, plug),
                    adapters,
                    links,
                    lead,
                    base,
                    down,
                    k + 1,
                    m,
                    (most - 1) as nat,
                );
            },
        }
    }
}

/// Negotiate with adapters on the links that need one. The graph comes back
/// with the nodes that were put in.
pub fn solve_plugged(g: &mut Graph, adapters: &Vec<Adapter>) -> (r: Result<Vec<Caps>, Error>)
    requires
        old(g).wf(),
        8 * (old(g).nodes@.len() + links_of(
            old(g).parent_lists(),
            old(g).nodes@.len() as int,
        )) + 4 <= usize::MAX,
    ensures
        final(g).wf(),
        shape_of(final(g)) == plugged(
            shape_of(old(g)),
            adapter_models(adapters@),
            old(g).nodes@.len() as int,
            links_of(old(g).parent_lists(), old(g).nodes@.len() as int),
        ),
        match solver::problem_of(final(g)).solution() {
            Ok(fixed) => r matches Ok(f) && f@ == fixed,
            Err(fault) => r matches Err(e) && solver::reported(
                solver::problem_of(final(g)),
                solver::problem_of(final(g)).negotiated()->Ok_0,
                fault,
                e,
            ),
        },
{
    let base: usize = g.len();
    let mut left: usize = count_links(g);
    let ghost most = left as nat;
    let ghost start = shape_of(g);
    let ghost models = adapter_models(adapters@);
    loop
        invariant
            g.wf(),
            models == adapter_models(adapters@),
            base <= g.nodes@.len(),
            8 * (base + most) + 4 <= usize::MAX,
            g.nodes@.len() + left == base + most,
            plugged(start, models, base as int, most) == plugged(
                shape_of(g),
                models,
                base as int,
                left as nat,
            ),
        ensures
            g.wf(),
            shape_of(g) == plugged(start, models, base as int, most),
            g.nodes@.len() <= base + most,
            8 * (base + most) + 4 <= usize::MAX,
        decreases left,
    {
        if left == 0 {
            break;
        }
        let ghost s = shape_of(g);
        assert(s.problem() == solver::problem_of(g));
        let (up, down) = match solver::solve(g) {
            Err(Error::EmptyLink { upstream, downstream, .. }) => (upstream.0, downstream.0),
            _ => {
                break;
            },
        };
        if down >= base || !lists_parent(g, up, down) {
            break;
        }
        let before: usize = g.len();
        adapt(g, adapters, base, up, down, left);
        let added: usize = g.len() - before;
        if added == 0 {
            break;
        }
        left = left - added;
    }
    solver::solve(g)
}

} // verus!
