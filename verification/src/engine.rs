//! Decisions of the pull runtime that depend on no pixel: how a dirty
//! region travels down the graph, the grids of nodes, and which nodes vary
//! with the pull time.

use vstd::prelude::*;

use crate::caps::Caps;
use crate::graph;
use crate::graph::{Graph, Node, NodeId};
use crate::number::Real;
use crate::window::{Bbox, ChunkKey, GridSpec, TimeInterval};

verus! {

/// A window of a node went stale.
#[derive(Clone, Copy, Debug, PartialEq, Eq, Structural)]
pub struct Invalidation {
    pub node: NodeId,
    pub bbox: Bbox,
}

/// The dirty regions of a node's first `k` parents, in wiring order.
pub open spec fn dirty_parents(
    parents: Seq<usize>,
    dirty: Seq<Option<Bbox>>,
    k: int,
) -> Seq<Bbox>
    decreases k,
{
    if k <= 0 {
        Seq::empty()
    } else {
        let before = dirty_parents(parents, dirty, k - 1);
        match dirty[parents[k - 1] as int] {
            Some(b) => before.push(b),
            None => before,
        }
    }
}

/// The dirty regions that reach a node from its parents.
pub fn dirty_inputs(parents: &Vec<usize>, dirty: &Vec<Option<Bbox>>) -> (r: Vec<Bbox>)
    requires
        forall|k: int| 0 <= k < parents@.len() ==> #[trigger] parents@[k] < dirty@.len(),
    ensures
        r@ == dirty_parents(parents@, dirty@, parents@.len() as int),
{
    let mut r: Vec<Bbox> = Vec::new();
    for k in 0..parents.len()
        invariant
            forall|k: int| 0 <= k < parents@.len() ==> #[trigger] parents@[k] < dirty@.len(),
            r@ == dirty_parents(parents@, dirty@, k as int),
    {
        if let Some(b) = dirty[parents[k]] {
            r.push(b);
        }
    }
    r
}

/// What is dirty at a node: its own region and what spread to it.
pub open spec fn dirty_union(own: Option<Bbox>, spread: Seq<Bbox>) -> Option<Bbox>
    decreases spread.len(),
{
    if spread.len() == 0 {
        own
    } else {
        match dirty_union(own, spread.drop_last()) {
            None => Some(spread.last()),
            Some(b) => Some(b.joined(spread.last())),
        }
    }
}

/// What is dirty at a node: its own region and what spread to it.
pub fn join_dirty(own: Option<Bbox>, spread: &Vec<Bbox>) -> (r: Option<Bbox>)
    ensures
        r == dirty_union(own, spread@),
{
    let mut r: Option<Bbox> = own;
    assert(dirty_union(own, spread@.take(0)) == own);
    for k in 0..spread.len()
        invariant
            r == dirty_union(own, spread@.take(k as int)),
    {
        assert(spread@.take(k as int + 1).drop_last() =~= spread@.take(k as int));
        r = match r {
            None => Some(spread[k]),
            Some(b) => Some(b.union(&spread[k])),
        };
    }
    assert(spread@.take(spread@.len() as int) =~= spread@);
    r
}

/// A chunk that meets any part of what is dirty at a node meets the whole.
pub proof fn dirty_union_meets(own: Option<Bbox>, spread: Seq<Bbox>, c: Bbox)
    requires
        (own matches Some(b) && b.meets(c)) || exists|i: int|
            0 <= i < spread.len() && (#[trigger] spread[i]).meets(c),
    ensures
        dirty_union(own, spread) matches Some(b) && b.meets(c),
    decreases spread.len(),
{
    if spread.len() > 0 {
        let rest = spread.drop_last();
        let last = spread.last();
        if last.meets(c) {
            if let Some(b) = dirty_union(own, rest) {
                crate::window::union_meets_what_a_part_meets(last, b, c);
                assert(b.joined(last).meets(c));
            }
        } else {
            assert((own matches Some(b) && b.meets(c)) || exists|i: int|
                0 <= i < rest.len() && (#[trigger] rest[i]).meets(c)) by {
                if !(own matches Some(b) && b.meets(c)) {
                    let i = choose|i: int| 0 <= i < spread.len() && (#[trigger] spread[i]).meets(c);
                    assert(rest[i].meets(c));
                }
            }
            dirty_union_meets(own, rest, c);
            let b = dirty_union(own, rest)->0;
            crate::window::union_meets_what_a_part_meets(b, last, c);
        }
    }
}

/// Nothing is dirty at a node whose parents are clean.
pub proof fn clean_inputs_stay_clean(own: Option<Bbox>)
    ensures
        dirty_union(own, Seq::empty()) == own,
{
}

/// What the spreading that is handed in makes of a dirty region of a
/// node's input.
pub open spec fn carried<F: Fn(usize, Bbox) -> Bbox>(f: F, node: usize, b: Bbox) -> Bbox {
    choose|r: Bbox| f.ensures((node, b), r)
}

/// Every region can be spread at every node, and always in one way.
pub open spec fn is_spreading<F: Fn(usize, Bbox) -> Bbox>(f: F) -> bool {
    &&& forall|node: usize, b: Bbox| #[trigger] f.requires((node, b))
    &&& forall|node: usize, b: Bbox, r: Bbox, s: Bbox| #[trigger]
        f.ensures((node, b), r) && #[trigger] f.ensures((node, b), s) ==> r == s
}

/// Regions as a node's element spreads them.
pub open spec fn spread_at<F: Fn(usize, Bbox) -> Bbox>(f: F, node: usize, bs: Seq<Bbox>) -> Seq<
    Bbox,
> {
    Seq::new(bs.len(), |k: int| carried(f, node, bs[k]))
}

/// What is dirty from the start: a region of one node.
pub open spec fn first_dirt(nodes: nat, node: usize, b: Bbox) -> Seq<Option<Bbox>> {
    Seq::new(
        nodes,
        |i: int|
            if i == node {
                Some(b)
            } else {
                None
            },
    )
}

/// What is dirty at each node, once the first `n` of a walk were looked at.
pub open spec fn dirt<F: Fn(usize, Bbox) -> Bbox>(
    f: F,
    parents: Seq<Seq<usize>>,
    order: Seq<usize>,
    node: usize,
    b: Bbox,
    n: int,
) -> Seq<Option<Bbox>>
    decreases n,
{
    if n <= 0 {
        first_dirt(parents.len(), node, b)
    } else {
        let before = dirt(f, parents, order, node, b, n - 1);
        let j = order[n - 1];
        let reached = dirty_parents(parents[j as int], before, parents[j as int].len() as int);
        before.update(j as int, dirty_union(before[j as int], spread_at(f, j, reached)))
    }
}

proof fn dirt_is_per_node<F: Fn(usize, Bbox) -> Bbox>(
    f: F,
    parents: Seq<Seq<usize>>,
    order: Seq<usize>,
    node: usize,
    b: Bbox,
    n: int,
)
    requires
        n <= order.len(),
        graph::placed_well(parents, order),
    ensures
        dirt(f, parents, order, node, b, n).len() == parents.len(),
    decreases n,
{
    if n > 0 {
        dirt_is_per_node(f, parents, order, node, b, n - 1);
        assert(order[n - 1] < parents.len());
    }
}

proof fn dirt_of_placed_stays<F: Fn(usize, Bbox) -> Bbox>(
    f: F,
    parents: Seq<Seq<usize>>,
    order: Seq<usize>,
    node: usize,
    b: Bbox,
    m: int,
    n: int,
    i: int,
)
    requires
        graph::placed_well(parents, order),
        0 <= m <= n <= order.len(),
        0 <= i < parents.len(),
        forall|k: int| m <= k < n ==> #[trigger] order[k] != i,
    ensures
        dirt(f, parents, order, node, b, n)[i] == dirt(f, parents, order, node, b, m)[i],
    decreases n,
{
    if m < n {
        dirt_is_per_node(f, parents, order, node, b, n - 1);
        dirt_of_placed_stays(f, parents, order, node, b, m, n - 1, i);
        assert(order[n - 1] != i);
    }
}

proof fn same_dirty_parents(ps: Seq<usize>, x: Seq<Option<Bbox>>, y: Seq<Option<Bbox>>, k: int)
    requires
        0 <= k <= ps.len(),
        forall|a: int| 0 <= a < ps.len() ==> x[#[trigger] ps[a] as int] == y[ps[a] as int],
    ensures
        dirty_parents(ps, x, k) == dirty_parents(ps, y, k),
    decreases k,
{
    if k > 0 {
        same_dirty_parents(ps, x, y, k - 1);
        assert(x[ps[k - 1] as int] == y[ps[k - 1] as int]);
    }
}

/// What is dirty at a node is its own region and what its parents' dirt
/// spreads to, and nothing else.
pub proof fn dirt_flows_down<F: Fn(usize, Bbox) -> Bbox>(
    f: F,
    parents: Seq<Seq<usize>>,
    order: Seq<usize>,
    node: usize,
    b: Bbox,
    k: int,
)
    requires
        graph::parents_known(parents),
        graph::parents_first(parents, order),
        0 <= k < order.len(),
    ensures
        ({
            let all = dirt(f, parents, order, node, b, order.len() as int);
            let j = order[k];
            let reached = dirty_parents(parents[j as int], all, parents[j as int].len() as int);
            all[j as int] == dirty_union(
                first_dirt(parents.len(), node, b)[j as int],
                spread_at(f, j, reached),
            )
        }),
{
    let n = order.len() as int;
    let all = dirt(f, parents, order, node, b, n);
    let before = dirt(f, parents, order, node, b, k);
    let j = order[k];
    let i = j as int;
    dirt_is_per_node(f, parents, order, node, b, k);
    assert forall|m: int| k + 1 <= m < n implies #[trigger] order[m] != i by {
        assert(order[m] != order[k]);
    }
    dirt_of_placed_stays(f, parents, order, node, b, k + 1, n, i);
    assert forall|m: int| 0 <= m < k implies #[trigger] order[m] != i by {
        assert(order[m] != order[k]);
    }
    dirt_of_placed_stays(f, parents, order, node, b, 0, k, i);
    assert(graph::parents_in(parents, order.take(k), order[k] as int));
    assert forall|a: int| 0 <= a < parents[i].len() implies all[#[trigger] parents[i][a] as int]
        == before[parents[i][a] as int] by {
        let p = parents[i][a];
        assert(order.take(k).contains(p));
        let m = choose|m: int| 0 <= m < order.take(k).len() && order.take(k)[m] == p;
        assert(order[m] == p);
        assert(parents[i][a] < parents.len());
        assert forall|q: int| k <= q < n implies #[trigger] order[q] != p as int by {
            assert(order[q] != order[m]);
        }
        dirt_of_placed_stays(f, parents, order, node, b, k, n, p as int);
    }
    same_dirty_parents(parents[i], all, before, parents[i].len() as int);
}

/// What is dirty at each node once a region of one went stale.
pub fn dirty_regions<F: Fn(usize, Bbox) -> Bbox>(g: &Graph, node: NodeId, b: Bbox, f: &F) -> (r: Vec<
    Option<Bbox>,
>)
    requires
        g.wf(),
        is_spreading(*f),
    ensures
        r@ == dirt(
            *f,
            g.parent_lists(),
            graph::walk_order(g.parent_lists()),
            node.0,
            b,
            g.nodes@.len() as int,
        ),
{
    let ghost parents = g.parent_lists();
    let order = g.topo_order();
    let n: usize = g.len();
    let mut r: Vec<Option<Bbox>> = Vec::new();
    for i in 0..n
        invariant
            r@ == first_dirt(i as nat, node.0, b),
    {
        if i == node.0 {
            r.push(Some(b));
        } else {
            r.push(None);
        }
        assert(r@ =~= first_dirt((i + 1) as nat, node.0, b));
    }
    for k in 0..n
        invariant
            n == g.nodes@.len(),
            parents == g.parent_lists(),
            graph::parents_known(parents),
            graph::parents_first(parents, order@),
            is_spreading(*f),
            r@.len() == n,
            r@ == dirt(*f, parents, order@, node.0, b, k as int),
    {
        let j: usize = order[k];
        assert(order@[k as int] < parents.len());
        let ps = g.parents(NodeId(j));
        assert forall|a: int| 0 <= a < ps@.len() implies #[trigger] ps@[a] < r@.len() by {
            assert(parents[j as int][a] < parents.len());
        }
        let reached = dirty_inputs(&ps, &r);
        let mut spread: Vec<Bbox> = Vec::new();
        for a in 0..reached.len()
            invariant
                is_spreading(*f),
                spread@ == spread_at(*f, j, reached@).take(a as int),
        {
            let c = f(j, reached[a]);
            assert(f.ensures((j, reached@[a as int]), c));
            spread.push(c);
            assert(spread@ =~= spread_at(*f, j, reached@).take(a + 1));
        }
        assert(spread@ =~= spread_at(*f, j, reached@));
        let joined = join_dirty(r[j], &spread);
        r.set(j, joined);
    }
    r
}

/// The grid of a node: that of its element, tiled by the negotiated chunk
/// size.
pub fn node_grid(grid: &GridSpec, caps: &Caps) -> (r: GridSpec)
    ensures
        r == (GridSpec { chunk_px: caps.chunk_px_of(), ..*grid }),
{
    GridSpec {
        origin_x: grid.origin_x,
        origin_y: grid.origin_y,
        base_resolution: grid.base_resolution,
        chunk_px: caps.chunk_px(),
    }
}

/// The first grid of the finest base resolution, in the total order of
/// numbers.
pub open spec fn is_finest(grids: Seq<GridSpec>, k: int) -> bool {
    &&& 0 <= k < grids.len()
    &&& forall|i: int|
        0 <= i < grids.len() ==> grids[k].base_resolution.total_place()
            <= (#[trigger] grids[i]).base_resolution.total_place()
    &&& forall|i: int|
        0 <= i < k ==> grids[k].base_resolution.total_place()
            < (#[trigger] grids[i]).base_resolution.total_place()
}

/// The grid of a fan-in that asks for no other: the finest of its inputs.
pub fn finest_grid(grids: &Vec<GridSpec>) -> (r: GridSpec)
    requires
        grids@.len() > 0,
    ensures
        exists|k: int| #[trigger] is_finest(grids@, k) && r == grids@[k],
{
    let mut best: usize = 0;
    for i in 1..grids.len()
        invariant
            best < i <= grids@.len(),
            is_finest(grids@.take(i as int), best as int),
    {
        let ghost before = grids@.take(i as int);
        let ghost next = grids@.take(i as int + 1);
        let ghost old_best = best as int;
        assert forall|k: int| 0 <= k < i implies next[k] == #[trigger] before[k] by {}
        if grids[i].base_resolution.total_lt(grids[best].base_resolution) {
            best = i;
        }
        assert(is_finest(next, best as int)) by {
            assert forall|k: int| 0 <= k < next.len() implies next[best as int].base_resolution.total_place()
                <= (#[trigger] next[k]).base_resolution.total_place() by {
                if k < i {
                    assert(before[old_best].base_resolution.total_place()
                        <= before[k].base_resolution.total_place());
                }
            }
            assert forall|k: int| 0 <= k < best implies next[best as int].base_resolution.total_place()
                < (#[trigger] next[k]).base_resolution.total_place() by {
                assert(before[old_best].base_resolution.total_place()
                    <= before[k].base_resolution.total_place());
            }
        }
    }
    assert(grids@.take(grids@.len() as int) =~= grids@);
    assert(is_finest(grids@, best as int));
    grids[best]
}

/// The grids of some nodes.
pub open spec fn grids_of(grids: Seq<GridSpec>, nodes: Seq<usize>) -> Seq<GridSpec> {
    Seq::new(nodes.len(), |k: int| grids[nodes[k] as int])
}

/// The elements that are handed in make a grid of the grids of a node's
/// inputs.
pub open spec fn makes_grid<F: Fn(usize, Vec<GridSpec>) -> GridSpec>(
    f: F,
    i: usize,
    inputs: Vec<GridSpec>,
    r: GridSpec,
) -> bool {
    f.ensures((i, inputs), r)
}

/// A grid is what a node's element makes of the grids of its inputs, in
/// wiring order: a source of none, a transform of one, a fan-in of all.
pub open spec fn element_grid<F: Fn(usize, Vec<GridSpec>) -> GridSpec>(
    f: F,
    node: Node,
    i: usize,
    grids: Seq<GridSpec>,
    r: GridSpec,
) -> bool {
    exists|inputs: Vec<GridSpec>| #[trigger]
        makes_grid(f, i, inputs, r) && inputs@ == grids_of(grids, node.parent_indices())
}

/// A node's grid is that of its element, tiled by the negotiated chunk size.
pub open spec fn fits_node<F: Fn(usize, Vec<GridSpec>) -> GridSpec>(
    f: F,
    caps: Seq<Caps>,
    nodes: Seq<Node>,
    grids: Seq<GridSpec>,
    i: int,
) -> bool {
    exists|base: GridSpec| #[trigger]
        element_grid(f, nodes[i], i as usize, grids, base) && grids[i] == (GridSpec {
            chunk_px: caps[i].chunk_px_of(),
            ..base
        })
}

proof fn only_inputs_matter<F: Fn(usize, Vec<GridSpec>) -> GridSpec>(
    f: F,
    node: Node,
    i: usize,
    a: Seq<GridSpec>,
    b: Seq<GridSpec>,
    base: GridSpec,
)
    requires
        element_grid(f, node, i, a, base),
        forall|k: int|
            0 <= k < node.parent_indices().len() ==> a[#[trigger] node.parent_indices()[k] as int]
                == b[node.parent_indices()[k] as int],
    ensures
        element_grid(f, node, i, b, base),
{
    let ids = node.parent_indices();
    assert(grids_of(a, ids) =~= grids_of(b, ids));
}

/// The grid of every node, parents first: `f` is what the element of a node
/// makes of the grids of its inputs, in wiring order.
pub fn node_grids<F: Fn(usize, Vec<GridSpec>) -> GridSpec>(g: &Graph, caps: &Vec<Caps>, f: &F) -> (r:
    Vec<GridSpec>)
    requires
        g.wf(),
        caps@.len() == g.nodes@.len(),
        forall|i: usize, inputs: Vec<GridSpec>|
            i < g.nodes@.len() && inputs@.len() == g.nodes@[i as int].parent_indices().len()
                ==> #[trigger] f.requires((i, inputs)),
    ensures
        r@.len() == g.nodes@.len(),
        forall|i: int|
            0 <= i < g.nodes@.len() ==> #[trigger] fits_node(*f, caps@, g.nodes@, r@, i),
{
    let ghost parents = g.parent_lists();
    let ghost nodes = g.nodes@;
    let order = g.topo_order();
    let n: usize = g.len();
    let zero = Real::zero();
    let blank = GridSpec { origin_x: zero, origin_y: zero, base_resolution: zero, chunk_px: 0 };
    let mut r: Vec<GridSpec> = Vec::new();
    for i in 0..n
        invariant
            r@.len() == i,
    {
        r.push(blank);
    }
    for k in 0..n
        invariant
            n == g.nodes@.len(),
            nodes == g.nodes@,
            parents == g.parent_lists(),
            graph::parents_known(parents),
            graph::parents_first(parents, order@),
            caps@.len() == n,
            forall|i: usize, inputs: Vec<GridSpec>|
                i < n && inputs@.len() == nodes[i as int].parent_indices().len()
                    ==> #[trigger] f.requires((i, inputs)),
            r@.len() == n,
            forall|m: int|
                0 <= m < k ==> fits_node(*f, caps@, nodes, r@, #[trigger] order@[m] as int),
    {
        let i: usize = order[k];
        assert(order@[k as int] < parents.len());
        let ghost before = r@;
        let ps = g.parents(NodeId(i));
        let mut inputs: Vec<GridSpec> = Vec::new();
        for j in 0..ps.len()
            invariant
                i < n,
                n == g.nodes@.len(),
                parents == g.parent_lists(),
                graph::parents_known(parents),
                ps@ == parents[i as int],
                r@.len() == n,
                inputs@ == grids_of(r@, ps@.take(j as int)),
        {
            assert(parents[i as int][j as int] < parents.len());
            inputs.push(r[ps[j]]);
            assert(inputs@ =~= grids_of(r@, ps@.take(j + 1)));
        }
        assert(ps@.take(ps@.len() as int) =~= ps@);
        assert(ps@ == nodes[i as int].parent_indices());
        let ghost given = inputs;
        let base = f(i, inputs);
        assert(makes_grid(*f, i, given, base));
        r.set(i, node_grid(&base, &caps[i]));
        proof {
            assert(element_grid(*f, nodes[i as int], i, before, base));
            let ghost own_parents = nodes[i as int].parent_indices();
            assert(own_parents == parents[i as int]);
            assert(graph::parents_in(parents, order@.take(k as int), order@[k as int] as int));
            assert forall|a: int| 0 <= a < own_parents.len() implies r@[
            #[trigger] own_parents[a] as int] == before[own_parents[a] as int] by {
                let p = parents[i as int][a];
                assert(order@.take(k as int).contains(p));
                let m = order@.take(k as int).index_of(p);
                assert(order@.take(k as int)[m] == p);
                assert(order@[m] != order@[k as int]);
            }
            only_inputs_matter(*f, nodes[i as int], i, before, r@, base);
            assert(element_grid(*f, nodes[i as int], (i as int) as usize, r@, base));
            assert(fits_node(*f, caps@, nodes, r@, i as int));
            assert forall|m: int| 0 <= m < k implies fits_node(
                *f,
                caps@,
                nodes,
                r@,
                #[trigger] order@[m] as int,
            ) by {
                let j = order@[m] as int;
                assert(j < parents.len());
                assert(nodes[j].parent_indices() == parents[j]);
                assert(graph::parents_in(parents, order@.take(m), order@[m] as int));
                assert(order@[m] != order@[k as int]);
                assert forall|a: int| 0 <= a < parents[j].len() implies r@[
                #[trigger] parents[j][a] as int] == before[parents[j][a] as int] by {
                    let p = parents[j][a];
                    assert(order@.take(m).contains(p));
                    let q = order@.take(m).index_of(p);
                    assert(order@.take(m)[q] == p);
                    assert(order@[q] != order@[k as int]);
                }
                let base = choose|base: GridSpec| #[trigger]
                    element_grid(*f, nodes[j], j as usize, before, base) && before[j]
                        == (GridSpec { chunk_px: caps@[j].chunk_px_of(), ..base });
                only_inputs_matter(*f, nodes[j], j as usize, before, r@, base);
            }
        }
    }
    proof {
        assert forall|i: int| 0 <= i < nodes.len() implies #[trigger] fits_node(
            *f,
           
            caps@,
            nodes,
            r@,
            i,
        ) by {
            graph::every_node_is_placed(parents, order@, i as usize);
            let m = order@.index_of(i as usize);
            assert(order@[m] == i);
        }
    }
    r
}

// Time.

/// One of some nodes is marked.
pub open spec fn any_marked(marked: Seq<bool>, nodes: Seq<usize>) -> bool {
    exists|k: int| 0 <= k < nodes.len() && marked[#[trigger] nodes[k] as int]
}

/// The nodes whose data varies with the pull time, once the first `n` of a
/// walk were looked at: those that vary on their own, and those that read
/// from one that varies.
pub open spec fn varying(
    parents: Seq<Seq<usize>>,
    order: Seq<usize>,
    own: Seq<bool>,
    n: int,
) -> Seq<bool>
    decreases n,
{
    if n <= 0 {
        Seq::new(parents.len(), |i: int| false)
    } else {
        let before = varying(parents, order, own, n - 1);
        let i = order[n - 1] as int;
        before.update(i, own[i] || any_marked(before, parents[i]))
    }
}

proof fn marks_of_placed_stay(
    parents: Seq<Seq<usize>>,
    order: Seq<usize>,
    own: Seq<bool>,
    m: int,
    n: int,
    i: int,
)
    requires
        graph::placed_well(parents, order),
        0 <= m <= n <= order.len(),
        0 <= i < parents.len(),
        forall|k: int| m <= k < n ==> #[trigger] order[k] != i,
    ensures
        varying(parents, order, own, n)[i] == varying(parents, order, own, m)[i],
        varying(parents, order, own, n).len() == parents.len(),
        varying(parents, order, own, m).len() == parents.len(),
    decreases n,
{
    lengths_stay(parents, order, own, m);
    lengths_stay(parents, order, own, n);
    if m < n {
        lengths_stay(parents, order, own, n - 1);
        marks_of_placed_stay(parents, order, own, m, n - 1, i);
        assert(order[n - 1] != i);
    }
}

proof fn lengths_stay(parents: Seq<Seq<usize>>, order: Seq<usize>, own: Seq<bool>, n: int)
    requires
        n <= order.len(),
        graph::placed_well(parents, order),
    ensures
        varying(parents, order, own, n).len() == parents.len(),
    decreases n,
{
    if n > 0 {
        lengths_stay(parents, order, own, n - 1);
        assert(order[n - 1] < parents.len());
    }
}

/// A node varies with the pull time exactly where it does so on its own or
/// reads from one that does.
pub proof fn variation_flows_down(
    parents: Seq<Seq<usize>>,
    order: Seq<usize>,
    own: Seq<bool>,
    k: int,
)
    requires
        graph::parents_known(parents),
        graph::parents_first(parents, order),
        own.len() == parents.len(),
        0 <= k < order.len(),
    ensures
        ({
            let all = varying(parents, order, own, order.len() as int);
            let i = order[k] as int;
            all[i] == (own[i] || any_marked(all, parents[i]))
        }),
{
    let n = order.len() as int;
    let all = varying(parents, order, own, n);
    let before = varying(parents, order, own, k);
    let i = order[k] as int;
    lengths_stay(parents, order, own, k);
    assert forall|j: int| k + 1 <= j < n implies #[trigger] order[j] != i by {
        assert(order[j] != order[k]);
    }
    marks_of_placed_stay(parents, order, own, k + 1, n, i);
    assert(graph::parents_in(parents, order.take(k), order[k] as int));
    assert forall|a: int| 0 <= a < parents[i].len() implies all[#[trigger] parents[i][a] as int]
        == before[parents[i][a] as int] by {
        let p = parents[i][a];
        assert(order.take(k).contains(p));
        let m = choose|m: int| 0 <= m < order.take(k).len() && order.take(k)[m] == p;
        assert(order[m] == p);
        assert(parents[i][a] < parents.len());
        assert forall|j: int| k <= j < n implies #[trigger] order[j] != p as int by {
            assert(order[j] != order[m]);
        }
        marks_of_placed_stay(parents, order, own, k, n, p as int);
    }
    if any_marked(all, parents[i]) {
        let a = choose|a: int| 0 <= a < parents[i].len() && all[#[trigger] parents[i][a] as int];
        assert(before[parents[i][a] as int]);
    }
    if any_marked(before, parents[i]) {
        let a = choose|a: int| 0 <= a < parents[i].len() && before[#[trigger] parents[i][a] as int];
        assert(all[parents[i][a] as int]);
    }
}

/// The nodes whose data varies with the pull time.
pub fn time_varying(g: &Graph, own: &Vec<bool>) -> (r: Vec<bool>)
    requires
        g.wf(),
        own@.len() == g.nodes@.len(),
    ensures
        r@ == varying(
            g.parent_lists(),
            graph::walk_order(g.parent_lists()),
            own@,
            g.nodes@.len() as int,
        ),
{
    let ghost parents = g.parent_lists();
    let order = g.topo_order();
    let n: usize = g.len();
    let mut r: Vec<bool> = Vec::new();
    for i in 0..n
        invariant
            r@.len() == i,
            forall|k: int| 0 <= k < i ==> !(#[trigger] r@[k]),
    {
        r.push(false);
    }
    assert(r@ =~= varying(parents, order@, own@, 0));
    for k in 0..n
        invariant
            n == g.nodes@.len(),
            parents == g.parent_lists(),
            graph::parents_known(parents),
            graph::parents_first(parents, order@),
            own@.len() == n,
            r@.len() == n,
            r@ == varying(parents, order@, own@, k as int),
    {
        let i: usize = order[k];
        assert(order@[k as int] < parents.len());
        let ps = g.parents(NodeId(i));
        let mut hit: bool = own[i];
        for j in 0..ps.len()
            invariant
                i < n,
                n == g.nodes@.len(),
                parents == g.parent_lists(),
                graph::parents_known(parents),
                ps@ == parents[i as int],
                r@.len() == n,
                hit == (own@[i as int] || exists|a: int|
                    0 <= a < j && r@[#[trigger] ps@[a] as int]),
        {
            assert(parents[i as int][j as int] < parents.len());
            if r[ps[j]] {
                assert(r@[ps@[j as int] as int]);
                hit = true;
            }
        }
        assert(hit == (own@[i as int] || any_marked(r@, ps@)));
        r.set(i, hit);
    }
    r
}

/// The key under which a node's chunk is kept: with the pull time where the
/// node's data varies with it.
pub fn stamped(key: &ChunkKey, varies: bool, time: Option<TimeInterval>) -> (r: ChunkKey)
    ensures
        r == (ChunkKey {
            time: if varies {
                time
            } else {
                None
            },
            ..*key
        }),
{
    key.at_time(
        if varies {
            time
        } else {
            None
        },
    )
}

} // verus!
