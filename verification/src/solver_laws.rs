//! What negotiation keeps: links only ever narrow, and the caps it ends
//! with meet every demand along the graph.

use vstd::prelude::*;

use crate::caps;
use crate::caps::{Caps, ConstraintModel, PatternModel};
use crate::caps_laws;
use crate::caps_laws::Offer;
use crate::graph;
use crate::solver;
use crate::solver::{Fault, Links, Problem};

verus! {

/// Every resolution bound is a number and no alternative is empty.
pub open spec fn sound_set(xs: Seq<PatternModel>) -> bool {
    caps_laws::proper_set(xs) && forall|i: int| 0 <= i < xs.len() ==> !(#[trigger] xs[i]).empty()
}

/// The same of every link.
pub open spec fn sound_links(links: Links) -> bool {
    forall|i: int| 0 <= i < links.len() ==> sound_set(#[trigger] links[i])
}

/// Every resolution bound in a demand is a number.
pub open spec fn proper_demand(c: ConstraintModel) -> bool {
    match c {
        ConstraintModel::Produces(set) => caps_laws::proper_set(set),
        ConstraintModel::Identity(set) => caps_laws::proper_set(set),
        ConstraintModel::Derived { input, output, .. } => caps_laws::proper_set(input)
            && output.proper(),
    }
}

pub open spec fn proper_demands(p: Problem) -> bool {
    forall|i: int| 0 <= i < p.demands.len() ==> proper_demand(#[trigger] p.demands[i])
}

proof fn any_is_sound()
    ensures
        sound_set(caps::any_model()),
{
}

proof fn meet_is_sound(xs: Seq<PatternModel>, ys: Seq<PatternModel>)
    requires
        caps_laws::proper_set(xs),
        caps_laws::proper_set(ys),
    ensures
        sound_set(caps::set_meet(xs, ys)),
    decreases xs.len(),
{
    if xs.len() > 0 {
        let rest = xs.drop_last();
        assert forall|i: int| 0 <= i < rest.len() implies (#[trigger] rest[i]).proper() by {
            assert(xs[i].proper());
        }
        meet_is_sound(rest, ys);
        assert(xs[xs.len() - 1].proper());
        row_is_sound(caps::set_meet(rest, ys), xs.last(), ys);
    }
}

proof fn row_is_sound(set: Seq<PatternModel>, a: PatternModel, bs: Seq<PatternModel>)
    requires
        sound_set(set),
        a.proper(),
        caps_laws::proper_set(bs),
    ensures
        sound_set(caps::row_meet(set, a, bs)),
    decreases bs.len(),
{
    if bs.len() > 0 {
        let rest = bs.drop_last();
        assert forall|i: int| 0 <= i < rest.len() implies (#[trigger] rest[i]).proper() by {
            assert(bs[i].proper());
        }
        row_is_sound(set, a, rest);
        assert(bs[bs.len() - 1].proper());
        caps_laws::pattern_meet_admits(a, bs.last(), arbitrary());
    }
}

proof fn outputs_are_proper(c: ConstraintModel, input: Seq<PatternModel>)
    requires
        proper_demand(c),
        caps_laws::proper_set(input),
    ensures
        caps_laws::proper_set(c.outputs(input)),
        caps_laws::proper_set(c.accepts()),
{
    any_is_sound();
    match c {
        ConstraintModel::Produces(_) => {},
        ConstraintModel::Identity(set) => {
            meet_is_sound(input, set);
        },
        ConstraintModel::Derived { input: accepted, passthrough, output } => {
            meet_is_sound(input, accepted);
            let narrowed = caps::set_meet(input, accepted);
            assert forall|i: int| 0 <= i < narrowed.len() implies (#[trigger] c.outputs(
                input,
            )[i]).proper() by {
                caps_laws::projection_narrows(narrowed[i], output, passthrough, arbitrary());
            }
        },
    }
}

proof fn offered_is_proper(links: Links, parents: Seq<usize>, k: int)
    requires
        sound_links(links),
        0 < k <= parents.len(),
        forall|m: int| 0 <= m < parents.len() ==> #[trigger] parents[m] < links.len(),
    ensures
        caps_laws::proper_set(solver::offered(links, parents, k)),
    decreases k,
{
    assert(parents[0] < links.len());
    assert(sound_set(links[parents[0] as int]));
    if k > 1 {
        offered_is_proper(links, parents, k - 1);
        assert(parents[k - 1] < links.len());
        assert(sound_set(links[parents[k - 1] as int]));
        meet_is_sound(solver::offered(links, parents, k - 1), links[parents[k - 1] as int]);
    }
}

/// A forward step leaves of a link only what was on it and what the node
/// can make.
proof fn forward_step_narrows(p: Problem, links: Links, i: usize, o: Offer)
    requires
        p.wf(),
        proper_demands(p),
        links.len() == p.size(),
        sound_links(links),
        i < p.size(),
    ensures
        solver::forward_step(p.demands[i as int], p.parents[i as int], links, i) matches Ok(link)
            ==> {
            &&& sound_set(link)
            &&& (caps_laws::set_admits(link, o) ==> caps_laws::set_admits(links[i as int], o))
            &&& (p.parents[i as int].len() == 0 && caps_laws::set_admits(link, o)
                ==> caps_laws::set_admits(p.demands[i as int].outputs(caps::any_model()), o))
        },
{
    let demand = p.demands[i as int];
    let parents = p.parents[i as int];
    assert(proper_demand(demand));
    assert(sound_set(links[i as int]));
    any_is_sound();
    outputs_are_proper(demand, caps::any_model());
    let made = if parents.len() == 0 {
        demand.outputs(caps::any_model())
    } else {
        assert forall|m: int| 0 <= m < parents.len() implies #[trigger] parents[m]
            < links.len() by {
            assert(p.parents[i as int][m] < p.parents.len());
        }
        offered_is_proper(links, parents, parents.len() as int);
        meet_is_sound(solver::offered(links, parents, parents.len() as int), demand.accepts());
        let up = caps::set_meet(
            solver::offered(links, parents, parents.len() as int),
            demand.accepts(),
        );
        outputs_are_proper(demand, up);
        demand.outputs(up)
    };
    meet_is_sound(links[i as int], made);
    caps_laws::set_meet_admits(links[i as int], made, o);
}

/// What a node without parents can make.
pub open spec fn made_by_source(p: Problem, i: int) -> Seq<PatternModel> {
    p.demands[i].outputs(caps::any_model())
}

proof fn forward_narrows(p: Problem, links: Links, k: int, o: Offer)
    requires
        p.wf(),
        proper_demands(p),
        links.len() == p.size(),
        sound_links(links),
        0 <= k,
    ensures
        p.forward(links, k) matches Ok(next) ==> {
            &&& next.len() == links.len()
            &&& sound_links(next)
            &&& forall|i: int|
                0 <= i < links.len() && caps_laws::set_admits(#[trigger] next[i], o)
                    ==> caps_laws::set_admits(links[i], o)
            &&& forall|m: int|
                k <= m < p.order.len() && p.parents[#[trigger] p.order[m] as int].len() == 0
                    && caps_laws::set_admits(next[p.order[m] as int], o)
                    ==> caps_laws::set_admits(made_by_source(p, p.order[m] as int), o)
        },
    decreases p.order.len() - k,
{
    if k < p.order.len() {
        let i = p.order[k];
        assert(i < p.parents.len());
        forward_step_narrows(p, links, i, o);
        if let Ok(link) = solver::forward_step(
            p.demands[i as int],
            p.parents[i as int],
            links,
            i,
        ) {
            let after = links.update(i as int, link);
            assert forall|j: int| 0 <= j < after.len() implies sound_set(#[trigger] after[j]) by {
                if j != i {
                    assert(after[j] == links[j]);
                }
            }
            forward_narrows(p, after, k + 1, o);
            if let Ok(next) = p.forward(after, k + 1) {
                assert forall|j: int|
                    0 <= j < links.len() && caps_laws::set_admits(
                        #[trigger] next[j],
                        o,
                    ) implies caps_laws::set_admits(links[j], o) by {
                    assert(caps_laws::set_admits(after[j], o));
                }
            }
        }
    }
}

proof fn pin_is_proper(p: Problem, links: Links, c: usize, i: usize, m: int)
    requires
        p.wf(),
        links.len() == p.size(),
        sound_links(links),
        c < p.size(),
        0 <= m <= p.parents[c as int].len(),
    ensures
        caps_laws::proper_set(p.pin(links, c, i, m)),
    decreases m,
{
    assert(sound_set(links[c as int]));
    if m > 0 {
        pin_is_proper(p, links, c, i, m - 1);
        let q = p.parents[c as int][m - 1];
        assert(q < p.parents.len());
        assert(sound_set(links[q as int]));
        meet_is_sound(p.pin(links, c, i, m - 1), links[q as int]);
    }
}

proof fn pinned_is_sound(
    inputs: Seq<PatternModel>,
    pins: Seq<PatternModel>,
    mask: caps::FieldMask,
)
    requires
        caps_laws::proper_set(inputs),
        caps_laws::proper_set(pins),
    ensures
        sound_set(caps::pinned_inputs(inputs, pins, mask)),
    decreases inputs.len(),
{
    if inputs.len() > 0 {
        let rest = inputs.drop_last();
        assert forall|i: int| 0 <= i < rest.len() implies (#[trigger] rest[i]).proper() by {
            assert(inputs[i].proper());
        }
        pinned_is_sound(rest, pins, mask);
        assert(inputs[inputs.len() - 1].proper());
        first_pin_is_sound(inputs.last(), pins, mask);
    }
}

proof fn first_pin_is_sound(input: PatternModel, pins: Seq<PatternModel>, mask: caps::FieldMask)
    requires
        input.proper(),
        caps_laws::proper_set(pins),
    ensures
        caps::first_pinned(input, pins, mask) matches Some(p) ==> p.proper() && !p.empty(),
    decreases pins.len(),
{
    if pins.len() > 0 {
        assert(pins[0].proper());
        caps_laws::projection_narrows(pins[0], input, mask, arbitrary());
        let rest = pins.drop_first();
        assert forall|i: int| 0 <= i < rest.len() implies (#[trigger] rest[i]).proper() by {
            assert(pins[i + 1].proper());
        }
        first_pin_is_sound(input, rest, mask);
    }
}

proof fn child_narrows(p: Problem, links: Links, c: usize, i: usize, o: Offer)
    requires
        p.wf(),
        proper_demands(p),
        links.len() == p.size(),
        sound_links(links),
        c < p.size(),
        i < p.size(),
    ensures
        sound_set(p.left_by_child(links, c, i)),
        caps_laws::set_admits(p.left_by_child(links, c, i), o) ==> caps_laws::set_admits(
            links[i as int],
            o,
        ),
{
    let demand = p.demands[c as int];
    assert(proper_demand(demand));
    assert(sound_set(links[i as int]));
    let pin = p.pin(links, c, i, p.parents[c as int].len() as int);
    pin_is_proper(p, links, c, i, p.parents[c as int].len() as int);
    any_is_sound();
    outputs_are_proper(demand, caps::any_model());
    let input = caps::set_meet(links[i as int], demand.accepts());
    meet_is_sound(links[i as int], demand.accepts());
    caps_laws::set_meet_admits(links[i as int], demand.accepts(), o);
    match demand {
        ConstraintModel::Produces(_) => {},
        ConstraintModel::Identity(_) => {
            meet_is_sound(input, pin);
        },
        ConstraintModel::Derived { passthrough, .. } => {
            pinned_is_sound(input, pin, passthrough);
        },
    }
    if caps_laws::set_admits(p.left_by_child(links, c, i), o) {
        caps_laws::narrowing_never_widens(demand, input, pin, o);
    }
}

proof fn children_narrow(
    p: Problem,
    links: Links,
    i: usize,
    children: Seq<usize>,
    k: int,
    o: Offer,
)
    requires
        p.wf(),
        proper_demands(p),
        links.len() == p.size(),
        sound_links(links),
        i < p.size(),
        0 <= k,
        forall|m: int| 0 <= m < children.len() ==> #[trigger] children[m] < p.size(),
    ensures
        p.backward_children(links, i, children, k) matches Ok(next) ==> {
            &&& next.len() == links.len()
            &&& sound_links(next)
            &&& forall|j: int|
                0 <= j < links.len() && caps_laws::set_admits(#[trigger] next[j], o)
                    ==> caps_laws::set_admits(links[j], o)
        },
    decreases children.len() - k,
{
    if k < children.len() {
        let c = children[k];
        child_narrows(p, links, c, i, o);
        let after = links.update(i as int, p.left_by_child(links, c, i));
        assert forall|j: int| 0 <= j < after.len() implies sound_set(#[trigger] after[j]) by {
            if j != i {
                assert(after[j] == links[j]);
            }
        }
        children_narrow(p, after, i, children, k + 1, o);
        if let Ok(next) = p.backward_children(after, i, children, k + 1) {
            assert forall|j: int|
                0 <= j < links.len() && caps_laws::set_admits(
                    #[trigger] next[j],
                    o,
                ) implies caps_laws::set_admits(links[j], o) by {
                assert(caps_laws::set_admits(after[j], o));
            }
        }
    }
}

proof fn children_in_range(parents: Seq<Seq<usize>>, id: usize, n: int)
    requires
        0 <= n <= parents.len() <= usize::MAX,
    ensures
        forall|m: int|
            0 <= m < graph::children_among(parents, id, n).len() ==> (
            #[trigger] graph::children_among(parents, id, n)[m]) < n,
    decreases n,
{
    if n > 0 {
        children_in_range(parents, id, n - 1);
        let before = graph::children_among(parents, id, n - 1);
        let all = graph::children_among(parents, id, n);
        assert forall|m: int| 0 <= m < all.len() implies #[trigger] all[m] < n by {
            if m < before.len() {
                assert(before[m] < n - 1);
            }
        }
    }
}

proof fn backward_narrows(p: Problem, links: Links, k: int, o: Offer)
    requires
        p.wf(),
        proper_demands(p),
        links.len() == p.size(),
        sound_links(links),
        k <= p.order.len(),
    ensures
        p.backward(links, k) matches Ok(next) ==> {
            &&& next.len() == links.len()
            &&& sound_links(next)
            &&& forall|j: int|
                0 <= j < links.len() && caps_laws::set_admits(#[trigger] next[j], o)
                    ==> caps_laws::set_admits(links[j], o)
        },
    decreases k,
{
    if k > 0 {
        let i = p.order[k - 1];
        assert(i < p.parents.len());
        let children = graph::children_among(p.parents, i, p.parents.len() as int);
        children_in_range(p.parents, i, p.parents.len() as int);
        children_narrow(p, links, i, children, 0, o);
        if let Ok(after) = p.backward_children(links, i, children, 0) {
            backward_narrows(p, after, k - 1, o);
            if let Ok(next) = p.backward(after, k - 1) {
                assert forall|j: int|
                    0 <= j < links.len() && caps_laws::set_admits(
                        #[trigger] next[j],
                        o,
                    ) implies caps_laws::set_admits(links[j], o) by {
                    assert(caps_laws::set_admits(after[j], o));
                }
            }
        }
    }
}

/// A sweep only narrows: what a link admits after it, the link admitted
/// before, and a source's link admits nothing that the source cannot make.
pub proof fn a_sweep_only_narrows(p: Problem, links: Links, o: Offer)
    requires
        p.wf(),
        proper_demands(p),
        links.len() == p.size(),
        sound_links(links),
    ensures
        p.sweep(links) matches Ok(next) ==> {
            &&& next.len() == links.len()
            &&& sound_links(next)
            &&& forall|i: int|
                0 <= i < links.len() && caps_laws::set_admits(#[trigger] next[i], o)
                    ==> caps_laws::set_admits(links[i], o)
            &&& forall|m: int|
                0 <= m < p.order.len() && p.parents[#[trigger] p.order[m] as int].len() == 0
                    && caps_laws::set_admits(next[p.order[m] as int], o)
                    ==> caps_laws::set_admits(made_by_source(p, p.order[m] as int), o)
        },
{
    forward_narrows(p, links, 0, o);
    if let Ok(after) = p.forward(links, 0) {
        backward_narrows(p, after, p.order.len() as int, o);
        if let Ok(next) = p.backward(after, p.order.len() as int) {
            assert forall|i: int|
                0 <= i < links.len() && caps_laws::set_admits(
                    #[trigger] next[i],
                    o,
                ) implies caps_laws::set_admits(links[i], o) by {
                assert(caps_laws::set_admits(after[i], o));
            }
            assert forall|m: int|
                0 <= m < p.order.len() && p.parents[#[trigger] p.order[m] as int].len() == 0
                    && caps_laws::set_admits(
                    next[p.order[m] as int],
                    o,
                ) implies caps_laws::set_admits(made_by_source(p, p.order[m] as int), o) by {
                assert(p.order[m] < p.parents.len());
                assert(caps_laws::set_admits(after[p.order[m] as int], o));
            }
        }
    }
}

proof fn narrowing_is_sound(p: Problem, links: Links, most: nat, o: Offer)
    requires
        p.wf(),
        proper_demands(p),
        links.len() == p.size(),
        sound_links(links),
    ensures
        p.narrowed(links, most) matches Ok(next) ==> {
            &&& next.len() == links.len()
            &&& sound_links(next)
            &&& forall|i: int|
                0 <= i < links.len() && caps_laws::set_admits(#[trigger] next[i], o)
                    ==> caps_laws::set_admits(links[i], o)
            &&& most > 0 ==> forall|m: int|
                0 <= m < p.order.len() && p.parents[#[trigger] p.order[m] as int].len() == 0
                    && caps_laws::set_admits(next[p.order[m] as int], o)
                    ==> caps_laws::set_admits(made_by_source(p, p.order[m] as int), o)
        },
    decreases most,
{
    if most > 0 {
        a_sweep_only_narrows(p, links, o);
        if let Ok(after) = p.sweep(links) {
            narrowing_is_sound(p, after, (most - 1) as nat, o);
            if let Ok(next) = p.narrowed(after, (most - 1) as nat) {
                assert forall|i: int|
                    0 <= i < links.len() && caps_laws::set_admits(
                        #[trigger] next[i],
                        o,
                    ) implies caps_laws::set_admits(after[i], o) by {}
                if !solver::same_links(after, links) {
                    assert forall|i: int|
                        0 <= i < links.len() && caps_laws::set_admits(
                            #[trigger] next[i],
                            o,
                        ) implies caps_laws::set_admits(links[i], o) by {
                        assert(caps_laws::set_admits(after[i], o));
                    }
                    assert forall|m: int|
                        0 <= m < p.order.len() && p.parents[#[trigger] p.order[m] as int].len()
                            == 0 && caps_laws::set_admits(
                            next[p.order[m] as int],
                            o,
                        ) implies caps_laws::set_admits(
                        made_by_source(p, p.order[m] as int),
                        o,
                    ) by {
                        assert(p.order[m] < p.parents.len());
                        assert(caps_laws::set_admits(after[p.order[m] as int], o));
                    }
                }
            }
        }
    }
}

pub(crate) proof fn distinct_caps_come_from(patterns: Seq<PatternModel>, c: Caps) -> (at: int)
    requires
        solver::distinct_caps(patterns).contains(c),
    ensures
        0 <= at < patterns.len(),
        caps::fixed_caps(patterns[at]) == Some(c),
    decreases patterns.len(),
{
    let all = solver::distinct_caps(patterns);
    let k = choose|k: int| 0 <= k < all.len() && all[k] == c;
    let before = solver::distinct_caps(patterns.drop_last());
    if k < before.len() {
        assert(before[k] == c);
        distinct_caps_come_from(patterns.drop_last(), c)
    } else {
        patterns.len() - 1
    }
}

proof fn pattern_of_sound_caps(q: PatternModel, c: Caps)
    requires
        q.proper(),
        !q.empty(),
        caps::fixed_caps(q) == Some(c),
    ensures
        c.as_pattern().proper(),
{
}

/// Fixed caps agree with what they were chosen from: at a source, with
/// what the source makes; below, with what the node derives from its
/// parents' fixed caps. `o` is any concrete state the fixed caps admit.
pub proof fn negotiated_caps_fit(
    p: Problem,
    links: Links,
    fixed: Seq<Option<Caps>>,
    i: usize,
    o: Offer,
)
    requires
        p.wf(),
        proper_demands(p),
        p.negotiated() == Ok::<Links, Fault>(links),
        p.consistent(links, fixed),
        i < p.size(),
        (fixed[i as int]->0).as_pattern().admits(o),
    ensures
        caps_laws::set_admits(links[i as int], o),
        p.parents[i as int].len() == 0 ==> caps_laws::set_admits(made_by_source(p, i as int), o),
        p.parents[i as int].len() > 0 ==> {
            let input = p.fixed_input(fixed, p.parents[i as int], p.parents[i as int].len() as int);
            &&& input is Some
            &&& !(input->0).empty()
            &&& caps_laws::set_admits(p.demands[i as int].outputs(seq![input->0]), o)
        },
{
    let seed = Seq::new(p.size(), |j: int| caps::any_model());
    any_is_sound();
    assert(sound_links(seed)) by {
        assert forall|j: int| 0 <= j < seed.len() implies sound_set(#[trigger] seed[j]) by {
            any_is_sound();
        }
    }
    narrowing_is_sound(p, seed, (8 * p.size() + 4) as nat, o);
    assert(fixed[i as int] is Some);
    let c = fixed[i as int]->0;
    let set = p.choices(links, fixed, i);
    let at = distinct_caps_come_from(set, c);
    assert(sound_set(links[i as int]));
    let parents = p.parents[i as int];
    if parents.len() == 0 {
        caps_laws::fixed_caps_stay_inside(set[at], c, o);
        assert(caps_laws::set_admits(links[i as int], o));
        let m = place(p, i as int);
        assert(p.order[m] == i);
    } else {
        inputs_are_proper(p, links, fixed, parents, parents.len() as int);
        let input = p.fixed_input(fixed, parents, parents.len() as int)->0;
        assert(proper_demand(p.demands[i as int]));
        outputs_are_proper(p.demands[i as int], seq![input]);
        let made = p.demands[i as int].outputs(seq![input]);
        meet_is_sound(made, links[i as int]);
        caps_laws::fixed_caps_stay_inside(set[at], c, o);
        assert(caps_laws::set_admits(set, o));
        caps_laws::set_meet_admits(made, links[i as int], o);
    }
}

proof fn place(p: Problem, i: int) -> (m: int)
    requires
        p.wf(),
        0 <= i < p.size(),
    ensures
        0 <= m < p.order.len(),
        p.order[m] == i,
{
    solver::place_of(p, i)
}

proof fn fixed_caps_are_proper(p: Problem, links: Links, fixed: Seq<Option<Caps>>, k: int)
    requires
        p.wf(),
        proper_demands(p),
        links.len() == p.size(),
        sound_links(links),
        p.consistent(links, fixed),
        0 <= k < p.order.len(),
    ensures
        (fixed[p.order[k] as int]->0).as_pattern().proper(),
    decreases k,
{
    let i = p.order[k];
    assert(i < p.parents.len());
    assert(fixed[i as int] is Some);
    let c = fixed[i as int]->0;
    let set = p.choices(links, fixed, i);
    let at = distinct_caps_come_from(set, c);
    assert(sound_set(links[i as int]));
    let parents = p.parents[i as int];
    if parents.len() > 0 {
        solver::earlier_parents(p, k);
        assert forall|m: int| 0 <= m < parents.len() implies (fixed[
        #[trigger] parents[m] as int]->0).as_pattern().proper() by {
            assert(solver::stands_before(p, p.parents[p.order[k] as int][m], k));
            let e = choose|e: int| 0 <= e < k && #[trigger] p.order[e] == parents[m];
            fixed_caps_are_proper(p, links, fixed, e);
        }
        joined_is_proper(p, fixed, parents, parents.len() as int);
        let input = p.fixed_input(fixed, parents, parents.len() as int)->0;
        assert(proper_demand(p.demands[i as int]));
        outputs_are_proper(p.demands[i as int], seq![input]);
        meet_is_sound(p.demands[i as int].outputs(seq![input]), links[i as int]);
    }
    assert(set[at].proper());
    pattern_of_sound_caps(set[at], c);
}

proof fn joined_is_proper(p: Problem, fixed: Seq<Option<Caps>>, parents: Seq<usize>, k: int)
    requires
        0 < k <= parents.len(),
        forall|m: int|
            0 <= m < parents.len() ==> (fixed[
            #[trigger] parents[m] as int]->0).as_pattern().proper(),
    ensures
        p.fixed_input(fixed, parents, k) matches Some(q) ==> q.proper(),
    decreases k,
{
    assert((fixed[parents[0] as int]->0).as_pattern().proper());
    if k > 1 {
        joined_is_proper(p, fixed, parents, k - 1);
        assert((fixed[parents[k - 1] as int]->0).as_pattern().proper());
        if let Some(q) = p.fixed_input(fixed, parents, k - 1) {
            caps_laws::pattern_meet_admits(
                q,
                (fixed[parents[k - 1] as int]->0).as_pattern(),
                arbitrary(),
            );
        }
    }
}

proof fn inputs_are_proper(
    p: Problem,
    links: Links,
    fixed: Seq<Option<Caps>>,
    parents: Seq<usize>,
    k: int,
)
    requires
        p.wf(),
        proper_demands(p),
        links.len() == p.size(),
        sound_links(links),
        p.consistent(links, fixed),
        0 < k <= parents.len(),
        forall|m: int| 0 <= m < parents.len() ==> #[trigger] parents[m] < p.size(),
    ensures
        p.fixed_input(fixed, parents, k) matches Some(q) ==> q.proper(),
        forall|m: int|
            0 <= m < parents.len() ==> (fixed[
            #[trigger] parents[m] as int]->0).as_pattern().proper(),
{
    assert forall|m: int| 0 <= m < parents.len() implies (fixed[
    #[trigger] parents[m] as int]->0).as_pattern().proper() by {
        let e = place(p, parents[m] as int);
        fixed_caps_are_proper(p, links, fixed, e);
    }
    joined_is_proper(p, fixed, parents, k);
}

proof fn joined_admits_each(
    p: Problem,
    fixed: Seq<Option<Caps>>,
    parents: Seq<usize>,
    k: int,
    o: Offer,
)
    requires
        0 < k <= parents.len(),
        forall|m: int|
            0 <= m < parents.len() ==> (fixed[
            #[trigger] parents[m] as int]->0).as_pattern().proper(),
    ensures
        p.fixed_input(fixed, parents, k) matches Some(q) ==> (q.admits(o) ==> forall|m: int|
            0 <= m < k ==> (fixed[#[trigger] parents[m] as int]->0).as_pattern().admits(o)),
    decreases k,
{
    if k > 1 {
        joined_admits_each(p, fixed, parents, k - 1, o);
        joined_is_proper(p, fixed, parents, k - 1);
        assert((fixed[parents[k - 1] as int]->0).as_pattern().proper());
        if let Some(q) = p.fixed_input(fixed, parents, k - 1) {
            caps_laws::pattern_meet_admits(
                q,
                (fixed[parents[k - 1] as int]->0).as_pattern(),
                o,
            );
        }
    }
}

/// A node that passes its input through carries on its output nothing that
/// any of its input links does not carry: all pins of a fan-in match.
pub proof fn identity_output_fits_every_input(
    p: Problem,
    links: Links,
    fixed: Seq<Option<Caps>>,
    i: usize,
    k: int,
    o: Offer,
)
    requires
        p.wf(),
        proper_demands(p),
        p.negotiated() == Ok::<Links, Fault>(links),
        p.consistent(links, fixed),
        i < p.size(),
        p.demands[i as int] is Identity,
        0 <= k < p.parents[i as int].len(),
        (fixed[i as int]->0).as_pattern().admits(o),
    ensures
        (fixed[p.parents[i as int][k] as int]->0).as_pattern().admits(o),
{
    negotiated_caps_fit(p, links, fixed, i, o);
    let parents = p.parents[i as int];
    let seed = Seq::new(p.size(), |j: int| caps::any_model());
    assert(sound_links(seed)) by {
        assert forall|j: int| 0 <= j < seed.len() implies sound_set(#[trigger] seed[j]) by {
            any_is_sound();
        }
    }
    narrowing_is_sound(p, seed, (8 * p.size() + 4) as nat, o);
    assert forall|m: int| 0 <= m < parents.len() implies #[trigger] parents[m] < p.size() by {
        assert(p.parents[i as int][m] < p.parents.len());
    }
    inputs_are_proper(p, links, fixed, parents, parents.len() as int);
    let input = p.fixed_input(fixed, parents, parents.len() as int)->0;
    if let ConstraintModel::Identity(set) = p.demands[i as int] {
        assert(proper_demand(p.demands[i as int]));
        caps_laws::set_meet_admits(seq![input], set, o);
        let j = choose|j: int| 0 <= j < seq![input].len() && (#[trigger] seq![input][j]).admits(o);
        assert(input.admits(o));
        joined_admits_each(p, fixed, parents, parents.len() as int, o);
        assert((fixed[parents[k] as int]->0).as_pattern().admits(o));
    }
}

// Preferences.

/// The choice that takes every node's first candidate, in the order of the
/// walk, as far as each has one.
pub open spec fn first_choices(
    p: Problem,
    links: Links,
    fixed: Seq<Option<Caps>>,
    k: int,
) -> Option<Seq<Option<Caps>>>
    decreases p.order.len() - k,
{
    if k >= p.order.len() {
        Some(fixed)
    } else {
        let candidates = p.candidates(links, fixed, p.order[k]);
        if candidates.len() == 0 {
            None
        } else {
            first_choices(
                p,
                links,
                fixed.update(p.order[k] as int, Some(candidates[0])),
                k + 1,
            )
        }
    }
}

proof fn the_search_takes_first_choices(
    p: Problem,
    links: Links,
    fixed: Seq<Option<Caps>>,
    deepest: int,
    k: int,
)
    requires
        0 <= k <= p.order.len(),
        first_choices(p, links, fixed, k) is Some,
    ensures
        p.search(links, fixed, deepest, k).0 == first_choices(p, links, fixed, k),
    decreases p.order.len() - k,
{
    if k < p.order.len() {
        let candidates = p.candidates(links, fixed, p.order[k]);
        let next = fixed.update(p.order[k] as int, Some(candidates[0]));
        the_search_takes_first_choices(p, links, next, deepest, k + 1);
        assert(p.try_from(links, fixed, deepest, k, candidates, 0).0 == first_choices(
            p,
            links,
            next,
            k + 1,
        ));
    }
}

/// Preferences are kept: where every node can have its first candidate, it
/// has it.
pub proof fn preferred_caps_are_taken(p: Problem, links: Links)
    requires
        first_choices(p, links, Seq::new(p.size(), |i: int| None), 0) is Some,
    ensures
        p.fixation(links).0 == first_choices(p, links, Seq::new(p.size(), |i: int| None), 0),
{
    the_search_takes_first_choices(p, links, Seq::new(p.size(), |i: int| None), 0, 0);
}

/// A node's candidates are what its patterns are fixed to, in their order:
/// what a pattern is fixed to is listed, and the first pattern's is first.
pub proof fn candidates_go_in_order(patterns: Seq<PatternModel>, i: int)
    requires
        0 <= i < patterns.len(),
        caps::fixed_caps(patterns[i]) is Some,
    ensures
        solver::distinct_caps(patterns).len() > 0,
        i == 0 ==> Some(solver::distinct_caps(patterns)[0]) == caps::fixed_caps(patterns[0]),
        exists|j: int|
            0 <= j < solver::distinct_caps(patterns).len() && (#[trigger] solver::distinct_caps(
                patterns,
            )[j] == caps::fixed_caps(patterns[i])->0 || solver::distinct_caps(patterns)[j].equals(
                caps::fixed_caps(patterns[i])->0,
            )),
    decreases patterns.len(),
{
    let rest = patterns.drop_last();
    let before = solver::distinct_caps(rest);
    let all = solver::distinct_caps(patterns);
    if i < rest.len() {
        assert(rest[i] == patterns[i]);
        candidates_go_in_order(rest, i);
        let c = caps::fixed_caps(patterns[i])->0;
        let j = choose|j: int|
            0 <= j < before.len() && (#[trigger] before[j] == c || before[j].equals(c));
        assert(all[j] == before[j]);
        assert(all[0] == before[0]);
    } else {
        assert(patterns.last() == patterns[i]);
        let c = caps::fixed_caps(patterns[i])->0;
        if solver::caps_listed(before, c) {
            let j = choose|j: int| 0 <= j < before.len() && (#[trigger] before[j]).equals(c);
            assert(all[j].equals(c));
            if i == 0 {
                assert(before.len() == 0);
            }
        } else {
            assert(all[before.len() as int] == c);
            if i == 0 {
                assert(before.len() == 0);
            }
        }
    }
}

/// A step that fails names the node that it fails at and the first node that
/// it reads from, and fails only where its inputs agree on nothing that it
/// accepts or nothing is left of what it puts out.
pub proof fn a_failing_step_names_its_link(
    demand: ConstraintModel,
    parents: Seq<usize>,
    links: Links,
    i: usize,
)
    ensures
        match solver::forward_step(demand, parents, links, i) {
            Err(Fault::EmptyLink { upstream, downstream, .. }) => downstream == i && (parents.len()
                > 0 ==> upstream == parents[0]) && (parents.len() == 0 ==> upstream == i),
            Err(_) => false,
            Ok(link) => link.len() > 0,
        },
{
}

} // verus!
