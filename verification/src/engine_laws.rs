//! What is dirty and what varies, node by node.

use vstd::prelude::*;

use crate::engine;
use crate::graph;
use crate::window::Bbox;
use crate::window::GridSpec;

verus! {

proof fn a_dirty_parent_is_listed(
    parents: Seq<usize>,
    dirty: Seq<Option<Bbox>>,
    n: int,
    a: int,
) -> (at: int)
    requires
        0 <= a < n <= parents.len(),
        dirty[parents[a] as int] is Some,
    ensures
        0 <= at < engine::dirty_parents(parents, dirty, n).len(),
        Some(engine::dirty_parents(parents, dirty, n)[at]) == dirty[parents[a] as int],
    decreases n,
{
    if a < n - 1 {
        a_dirty_parent_is_listed(parents, dirty, n - 1, a)
    } else {
        engine::dirty_parents(parents, dirty, n - 1).len() as int
    }
}

proof fn clean_parents_list_nothing(parents: Seq<usize>, dirty: Seq<Option<Bbox>>, n: int)
    requires
        0 <= n <= parents.len(),
        forall|a: int| 0 <= a < n ==> dirty[#[trigger] parents[a] as int] is None,
    ensures
        engine::dirty_parents(parents, dirty, n).len() == 0,
    decreases n,
{
    if n > 0 {
        clean_parents_list_nothing(parents, dirty, n - 1);
        assert(dirty[parents[n - 1] as int] is None);
    }
}

/// A dirty region reaches every node behind it: whatever meets the region of
/// an input, once the node's element has spread it, meets what is dirty at
/// the node.
pub proof fn dirt_reaches_every_child<F: Fn(usize, Bbox) -> Bbox>(
    f: F,
    parents: Seq<Seq<usize>>,
    order: Seq<usize>,
    node: usize,
    b: Bbox,
    k: int,
    a: int,
    region: Bbox,
    spread: Bbox,
    c: Bbox,
)
    requires
        engine::is_spreading(f),
        graph::parents_known(parents),
        graph::parents_first(parents, order),
        0 <= k < order.len(),
        0 <= a < parents[order[k] as int].len(),
        engine::dirt(f, parents, order, node, b, order.len() as int)[parents[order[k] as int][a]
            as int] == Some(region),
        f.ensures((order[k], region), spread),
        spread.meets(c),
    ensures
        engine::dirt(f, parents, order, node, b, order.len() as int)[order[k] as int] matches Some(
            own,
        ) && own.meets(c),
{
    let all = engine::dirt(f, parents, order, node, b, order.len() as int);
    let j = order[k];
    let ps = parents[j as int];
    engine::dirt_flows_down(f, parents, order, node, b, k);
    let reached = engine::dirty_parents(ps, all, ps.len() as int);
    let at = a_dirty_parent_is_listed(ps, all, ps.len() as int, a);
    let made = engine::spread_at(f, j, reached);
    let r = engine::carried(f, j, region);
    assert(f.ensures((j, region), r));
    assert(made[at] == spread);
    engine::dirty_union_meets(engine::first_dirt(parents.len(), node, b)[j as int], made, c);
}

/// The node whose data changed is dirty where it changed, and a node that
/// nothing dirty reaches is clean.
pub proof fn dirt_starts_at_its_node<F: Fn(usize, Bbox) -> Bbox>(
    f: F,
    parents: Seq<Seq<usize>>,
    order: Seq<usize>,
    node: usize,
    b: Bbox,
    k: int,
    c: Bbox,
)
    requires
        graph::parents_known(parents),
        graph::parents_first(parents, order),
        0 <= k < order.len(),
    ensures
        ({
            let all = engine::dirt(f, parents, order, node, b, order.len() as int);
            let j = order[k];
            &&& j == node && b.meets(c) ==> (all[j as int] matches Some(own) && own.meets(c))
            &&& j != node && (forall|a: int|
                0 <= a < parents[j as int].len() ==> all[#[trigger] parents[j as int][a] as int] is
                    None) ==> all[j as int] is None
        }),
{
    let all = engine::dirt(f, parents, order, node, b, order.len() as int);
    let j = order[k];
    let ps = parents[j as int];
    engine::dirt_flows_down(f, parents, order, node, b, k);
    let reached = engine::dirty_parents(ps, all, ps.len() as int);
    let made = engine::spread_at(f, j, reached);
    let first = engine::first_dirt(parents.len(), node, b);
    assert(order[k] < parents.len());
    if j == node && b.meets(c) {
        assert(first[j as int] == Some(b));
        engine::dirty_union_meets(first[j as int], made, c);
    }
    if j != node && (forall|a: int|
        0 <= a < ps.len() ==> all[#[trigger] parents[j as int][a] as int] is None) {
        clean_parents_list_nothing(ps, all, ps.len() as int);
        assert(made =~= Seq::empty());
    }
}

/// What varies with the pull time passes that on to every node that reads
/// from it, and no other node varies that does not on its own.
pub proof fn what_varies_is_passed_on(
    parents: Seq<Seq<usize>>,
    order: Seq<usize>,
    own: Seq<bool>,
    k: int,
    a: int,
)
    requires
        graph::parents_known(parents),
        graph::parents_first(parents, order),
        own.len() == parents.len(),
        0 <= k < order.len(),
    ensures
        ({
            let all = engine::varying(parents, order, own, order.len() as int);
            let i = order[k] as int;
            &&& own[i] ==> all[i]
            &&& 0 <= a < parents[i].len() && all[parents[i][a] as int] ==> all[i]
            &&& !own[i] && (forall|j: int|
                0 <= j < parents[i].len() ==> !all[#[trigger] parents[i][j] as int]) ==> !all[i]
        }),
{
    engine::variation_flows_down(parents, order, own, k);
    let all = engine::varying(parents, order, own, order.len() as int);
    let i = order[k] as int;
    if 0 <= a < parents[i].len() && all[parents[i][a] as int] {
        assert(engine::any_marked(all, parents[i]));
    }
}

/// The finest of grids is as fine as each, and the first of those that are.
pub proof fn the_finest_grid_is_the_finest(grids: Seq<GridSpec>, k: int, i: int)
    requires
        engine::is_finest(grids, k),
        0 <= i < grids.len(),
        !grids[k].base_resolution.nan(),
        !grids[i].base_resolution.nan(),
    ensures
        0 <= k < grids.len(),
        grids[k].base_resolution.place() <= grids[i].base_resolution.place(),
        i < k ==> grids[i].base_resolution != grids[k].base_resolution,
{
}

} // verus!
