//! The pull graph: sources, transforms with one parent and fan-ins with
//! several. Nodes are added parents first; a node spliced onto an edge is
//! appended behind its consumer, so walks go by [`Graph::topo_order`].

use vstd::prelude::*;

use crate::caps::{Constraint, ConstraintModel};

verus! {

/// A node of a graph.
#[derive(Clone, Copy, Debug, PartialEq, Eq, Hash, Structural)]
pub struct NodeId(pub usize);

/// What the graph holds of a node: where its inputs come from and what it
/// demands of its links.
#[derive(Debug)]
pub enum Node {
    Source { constraint: Constraint },
    Transform { parent: NodeId, constraint: Constraint },
    Fanin { parents: Vec<NodeId>, constraint: Constraint },
}

/// The indices behind a list of nodes.
pub open spec fn indices(ids: Seq<NodeId>) -> Seq<usize> {
    Seq::new(ids.len(), |i: int| ids[i].0)
}

impl Node {
    pub open spec fn parent_indices(&self) -> Seq<usize> {
        match *self {
            Node::Source { .. } => Seq::empty(),
            Node::Transform { parent, .. } => seq![parent.0],
            Node::Fanin { parents, .. } => indices(parents@),
        }
    }

    pub open spec fn demand(&self) -> ConstraintModel {
        match *self {
            Node::Source { constraint } => constraint@,
            Node::Transform { constraint, .. } => constraint@,
            Node::Fanin { constraint, .. } => constraint@,
        }
    }

    pub fn constraint(&self) -> (r: &Constraint)
        ensures
            r@ == self.demand(),
    {
        match self {
            Node::Source { constraint } => constraint,
            Node::Transform { parent: _, constraint } => constraint,
            Node::Fanin { parents: _, constraint } => constraint,
        }
    }
}

/// Every parent is a node of the graph.
pub open spec fn parents_known(parents: Seq<Seq<usize>>) -> bool {
    forall|i: int, k: int|
        #![trigger parents[i][k]]
        0 <= i < parents.len() && 0 <= k < parents[i].len() ==> parents[i][k] < parents.len()
}

/// A ranking under which every parent stands below its children.
pub open spec fn ranked(parents: Seq<Seq<usize>>, rank: Seq<nat>) -> bool {
    &&& rank.len() == parents.len()
    &&& forall|i: int, k: int|
        #![trigger parents[i][k]]
        0 <= i < parents.len() && 0 <= k < parents[i].len() ==> rank[parents[i][k] as int]
            < rank[i]
}

/// No node reaches itself through its parents.
pub open spec fn acyclic(parents: Seq<Seq<usize>>) -> bool {
    exists|rank: Seq<nat>| ranked(parents, rank)
}

/// The nodes of which `id` is a parent, among the first `n`, in order.
pub open spec fn children_among(parents: Seq<Seq<usize>>, id: usize, n: int) -> Seq<usize>
    decreases n,
{
    if n <= 0 {
        Seq::empty()
    } else {
        let before = children_among(parents, id, n - 1);
        if parents[n - 1].contains(id) {
            before.push((n - 1) as usize)
        } else {
            before
        }
    }
}

/// Every parent of a node is in a list.
pub open spec fn parents_in(parents: Seq<Seq<usize>>, order: Seq<usize>, i: int) -> bool {
    forall|k: int| 0 <= k < parents[i].len() ==> order.contains(#[trigger] parents[i][k])
}

/// One pass over the nodes from `i` on: each node whose parents are placed
/// is placed behind them.
pub open spec fn placing_pass(parents: Seq<Seq<usize>>, order: Seq<usize>, i: int) -> Seq<usize>
    decreases parents.len() - i,
{
    if i >= parents.len() {
        order
    } else if !order.contains(i as usize) && parents_in(parents, order, i) {
        placing_pass(parents, order.push(i as usize), i + 1)
    } else {
        placing_pass(parents, order, i + 1)
    }
}

/// Passes until every node is placed, at most so many.
pub open spec fn placing_passes(
    parents: Seq<Seq<usize>>,
    order: Seq<usize>,
    most: nat,
) -> Seq<usize>
    decreases most,
{
    if order.len() >= parents.len() || most == 0 {
        order
    } else {
        placing_passes(parents, placing_pass(parents, order, 0), (most - 1) as nat)
    }
}

/// The order in which a graph is walked.
pub open spec fn walk_order(parents: Seq<Seq<usize>>) -> Seq<usize> {
    placing_passes(parents, Seq::empty(), parents.len())
}

/// Each node once, and behind all of its parents.
pub open spec fn parents_first(parents: Seq<Seq<usize>>, order: Seq<usize>) -> bool {
    &&& order.len() == parents.len()
    &&& placed_well(parents, order)
}

/// Some of the nodes, none twice, each behind all of its parents.
pub open spec fn placed_well(parents: Seq<Seq<usize>>, order: Seq<usize>) -> bool {
    &&& order.no_duplicates()
    &&& forall|k: int| 0 <= k < order.len() ==> #[trigger] order[k] < parents.len()
    &&& forall|k: int|
        0 <= k < order.len() ==> parents_in(parents, order.take(k), #[trigger] order[k] as int)
}

/// A graph under construction.
#[derive(Debug)]
pub struct Graph {
    pub nodes: Vec<Node>,
}

impl Default for Graph {
    fn default() -> (r: Self)
        ensures
            r.nodes@.len() == 0,
            r.wf(),
    {
        Graph::new()
    }
}

impl Graph {
    pub open spec fn parent_lists(&self) -> Seq<Seq<usize>> {
        Seq::new(self.nodes@.len(), |i: int| self.nodes@[i].parent_indices())
    }

    pub open spec fn demands(&self) -> Seq<ConstraintModel> {
        Seq::new(self.nodes@.len(), |i: int| self.nodes@[i].demand())
    }

    /// Parents are nodes of the graph and no node reaches itself.
    pub open spec fn wf(&self) -> bool {
        parents_known(self.parent_lists()) && acyclic(self.parent_lists())
    }

    pub fn new() -> (r: Self)
        ensures
            r.nodes@.len() == 0,
            r.wf(),
    {
        let r = Graph { nodes: Vec::new() };
        assert(ranked(r.parent_lists(), Seq::empty()));
        r
    }

    fn add(&mut self, node: Node) -> (id: NodeId)
        requires
            old(self).wf(),
            forall|k: int|
                0 <= k < node.parent_indices().len() ==> #[trigger] node.parent_indices()[k]
                    < old(self).nodes@.len(),
        ensures
            final(self).wf(),
            final(self).nodes@ == old(self).nodes@.push(node),
            id.0 == old(self).nodes@.len(),
    {
        let ghost before = self.parent_lists();
        let ghost rank = choose|rank: Seq<nat>| ranked(before, rank);
        self.nodes.push(node);
        proof {
            let after = self.parent_lists();
            assert(after =~= before.push(node.parent_indices()));
            let top = top_of(rank);
            top_is_above(rank);
            let wider = rank.push(top);
            assert forall|i: int, k: int|
                #![trigger after[i][k]]
                0 <= i < after.len() && 0 <= k < after[i].len() implies wider[after[i][k] as int]
                < wider[i] by {
                if i < before.len() {
                    assert(after[i] == before[i]);
                    assert(before[i][k] < before.len());
                }
            }
            assert(ranked(after, wider));
        }
        NodeId(self.nodes.len() - 1)
    }

    pub fn add_source(&mut self, constraint: Constraint) -> (id: NodeId)
        requires
            old(self).wf(),
        ensures
            final(self).wf(),
            final(self).nodes@ == old(self).nodes@.push(Node::Source { constraint }),
            id.0 == old(self).nodes@.len(),
    {
        self.add(Node::Source { constraint })
    }

    pub fn add_transform(&mut self, parent: NodeId, constraint: Constraint) -> (id: NodeId)
        requires
            old(self).wf(),
            parent.0 < old(self).nodes@.len(),
        ensures
            final(self).wf(),
            final(self).nodes@ == old(self).nodes@.push(Node::Transform { parent, constraint }),
            id.0 == old(self).nodes@.len(),
    {
        self.add(Node::Transform { parent, constraint })
    }

    pub fn add_fanin(&mut self, parents: Vec<NodeId>, constraint: Constraint) -> (id: NodeId)
        requires
            old(self).wf(),
            parents@.len() >= 2,
            forall|k: int| 0 <= k < parents@.len() ==> (#[trigger] parents@[k]).0 < old(
                self,
            ).nodes@.len(),
        ensures
            final(self).wf(),
            final(self).nodes@ == old(self).nodes@.push(Node::Fanin { parents, constraint }),
            id.0 == old(self).nodes@.len(),
    {
        let node = Node::Fanin { parents, constraint };
        assert forall|k: int| 0 <= k < node.parent_indices().len() implies
            #[trigger] node.parent_indices()[k] < old(self).nodes@.len() by {
            assert(parents@[k].0 < old(self).nodes@.len());
        }
        self.add(node)
    }

    pub fn len(&self) -> (n: usize)
        ensures
            n == self.nodes@.len(),
    {
        self.nodes.len()
    }

    /// The parents of a node, in wiring order.
    pub fn parents(&self, id: NodeId) -> (r: Vec<usize>)
        requires
            id.0 < self.nodes@.len(),
        ensures
            r@ == self.parent_lists()[id.0 as int],
    {
        let mut r: Vec<usize> = Vec::new();
        match &self.nodes[id.0] {
            Node::Source { constraint: _ } => {},
            Node::Transform { parent, constraint: _ } => {
                r.push(parent.0);
            },
            Node::Fanin { parents, constraint: _ } => {
                for k in 0..parents.len()
                    invariant
                        r@ == indices(parents@).take(k as int),
                {
                    r.push(parents[k].0);
                    assert(indices(parents@).take(k as int + 1) =~= indices(parents@).take(
                        k as int,
                    ).push(parents@[k as int].0));
                }
            },
        }
        assert(r@ =~= self.parent_lists()[id.0 as int]);
        r
    }

    /// The nodes that read from a node, in index order.
    pub fn children(&self, id: NodeId) -> (r: Vec<usize>)
        ensures
            r@ == children_among(self.parent_lists(), id.0, self.nodes@.len() as int),
    {
        let mut r: Vec<usize> = Vec::new();
        for i in 0..self.nodes.len()
            invariant
                r@ == children_among(self.parent_lists(), id.0, i as int),
        {
            let ps = self.parents(NodeId(i));
            if holds(&ps, id.0) {
                r.push(i);
            }
        }
        r
    }

    /// Parents-first order.
    pub fn topo_order(&self) -> (order: Vec<usize>)
        requires
            self.wf(),
        ensures
            order@ == walk_order(self.parent_lists()),
            parents_first(self.parent_lists(), order@),
    {
        let ghost parents = self.parent_lists();
        let n: usize = self.nodes.len();
        let mut order: Vec<usize> = Vec::new();
        proof {
            walk_order_is_parents_first(parents);
        }
        let ghost mut most = parents.len();
        while order.len() < n
            invariant
                self.wf(),
                parents == self.parent_lists(),
                n == parents.len(),
                placed_well(parents, order@),
                walk_order(parents) == placing_passes(parents, order@, most),
                order@.len() <= n,
                order@.len() + most >= n,
            decreases n - order.len(),
        {
            let ghost start = order@;
            for i in 0..n
                invariant
                    self.wf(),
                    parents == self.parent_lists(),
                    n == parents.len(),
                    placing_pass(parents, start, 0) == placing_pass(parents, order@, i as int),
            {
                let ps = self.parents(NodeId(i));
                if !holds(&order, i) && all_held(&ps, &order) {
                    order.push(i);
                }
            }
            proof {
                a_pass_places_well(parents, start, 0);
                a_pass_makes_progress(parents, start);
                placed_well_fits(parents, order@);
                most = (most - 1) as nat;
            }
        }
        order
    }
}

fn holds(v: &Vec<usize>, x: usize) -> (r: bool)
    ensures
        r == v@.contains(x),
{
    for i in 0..v.len()
        invariant
            forall|k: int| 0 <= k < i ==> v@[k] != x,
    {
        if v[i] == x {
            return true;
        }
    }
    false
}

fn all_held(xs: &Vec<usize>, v: &Vec<usize>) -> (r: bool)
    ensures
        r == (forall|k: int| 0 <= k < xs@.len() ==> v@.contains(#[trigger] xs@[k])),
{
    for i in 0..xs.len()
        invariant
            forall|k: int| 0 <= k < i ==> v@.contains(#[trigger] xs@[k]),
    {
        if !holds(v, xs[i]) {
            assert(!v@.contains(xs@[i as int]));
            return false;
        }
    }
    true
}

spec fn top_of(rank: Seq<nat>) -> nat
    decreases rank.len(),
{
    if rank.len() == 0 {
        0
    } else {
        let rest = top_of(rank.drop_last());
        if rank.last() >= rest {
            rank.last() + 1
        } else {
            rest
        }
    }
}

proof fn top_is_above(rank: Seq<nat>)
    ensures
        forall|i: int| 0 <= i < rank.len() ==> #[trigger] rank[i] < top_of(rank),
    decreases rank.len(),
{
    if rank.len() > 0 {
        let rest = rank.drop_last();
        top_is_above(rest);
        assert forall|i: int| 0 <= i < rank.len() implies #[trigger] rank[i] < top_of(rank) by {
            if i < rest.len() {
                assert(rest[i] < top_of(rest));
            }
        }
    }
}

proof fn placing_one_more(parents: Seq<Seq<usize>>, order: Seq<usize>, i: int)
    requires
        0 <= i < parents.len(),
        parents.len() <= usize::MAX,
        placed_well(parents, order),
        !order.contains(i as usize),
        parents_in(parents, order, i),
    ensures
        placed_well(parents, order.push(i as usize)),
{
    let next = order.push(i as usize);
    assert forall|k: int| 0 <= k < next.len() implies parents_in(
        parents,
        next.take(k),
        #[trigger] next[k] as int,
    ) by {
        if k < order.len() {
            assert(next.take(k) =~= order.take(k));
            assert(parents_in(parents, order.take(k), order[k] as int));
        } else {
            assert(next.take(k) =~= order);
        }
    }
    assert forall|a: int, b: int| 0 <= a < next.len() && 0 <= b < next.len() && a != b implies
        next[a] != next[b] by {
        if a == order.len() {
            if next[b] == next[a] {
                assert(order[b] == i as usize);
            }
        } else if b == order.len() {
            if next[b] == next[a] {
                assert(order[a] == i as usize);
            }
        }
    }
}

/// A pass keeps the order sound.
proof fn a_pass_places_well(parents: Seq<Seq<usize>>, order: Seq<usize>, i: int)
    requires
        0 <= i,
        parents.len() <= usize::MAX,
        placed_well(parents, order),
    ensures
        placed_well(parents, placing_pass(parents, order, i)),
        placing_pass(parents, order, i).len() >= order.len(),
    decreases parents.len() - i,
{
    if i < parents.len() {
        if !order.contains(i as usize) && parents_in(parents, order, i) {
            placing_one_more(parents, order, i);
            a_pass_places_well(parents, order.push(i as usize), i + 1);
        } else {
            a_pass_places_well(parents, order, i + 1);
        }
    }
}

proof fn placed_well_fits(parents: Seq<Seq<usize>>, order: Seq<usize>)
    requires
        placed_well(parents, order),
    ensures
        order.len() <= parents.len(),
{
    let ints = order.map_values(|x: usize| x as int);
    let low = vstd::set_lib::set_int_range(0, parents.len() as int);
    vstd::set_lib::lemma_int_range(0, parents.len() as int);
    assert(ints.no_duplicates()) by {
        assert forall|a: int, b: int| 0 <= a < ints.len() && 0 <= b < ints.len() && a != b implies
            ints[a] != ints[b] by {
            assert(order[a] != order[b]);
        }
    }
    ints.unique_seq_to_set();
    assert(ints.to_set().subset_of(low)) by {
        assert forall|x: int| ints.to_set().contains(x) implies low.contains(x) by {
            let k = choose|k: int| 0 <= k < ints.len() && ints[k] == x;
            assert(order[k] < parents.len());
        }
    }
    vstd::set_lib::lemma_len_subset(ints.to_set(), low);
}

/// A walk over all nodes comes by each of them.
pub proof fn every_node_is_placed(parents: Seq<Seq<usize>>, order: Seq<usize>, i: usize)
    requires
        parents_first(parents, order),
        i < parents.len(),
    ensures
        order.contains(i),
{
    let ints = order.map_values(|x: usize| x as int);
    let low = vstd::set_lib::set_int_range(0, parents.len() as int);
    vstd::set_lib::lemma_int_range(0, parents.len() as int);
    assert(ints.no_duplicates()) by {
        assert forall|a: int, b: int| 0 <= a < ints.len() && 0 <= b < ints.len() && a != b implies
            ints[a] != ints[b] by {
            assert(order[a] != order[b]);
        }
    }
    ints.unique_seq_to_set();
    assert(ints.to_set().subset_of(low)) by {
        assert forall|x: int| ints.to_set().contains(x) implies low.contains(x) by {
            let k = choose|k: int| 0 <= k < ints.len() && ints[k] == x;
            assert(order[k] < parents.len());
        }
    }
    vstd::set_lib::lemma_subset_equality(ints.to_set(), low);
    assert(low.contains(i as int));
    let k = choose|k: int| 0 <= k < ints.len() && ints[k] == i as int;
    assert(order[k] == i);
}

/// If a node is ready when a pass starts, the pass places something.
proof fn a_ready_node_is_placed(
    parents: Seq<Seq<usize>>,
    order: Seq<usize>,
    i: int,
    ready: int,
)
    requires
        0 <= i <= ready < parents.len(),
        parents.len() <= usize::MAX,
        placed_well(parents, order),
        !order.contains(ready as usize),
        parents_in(parents, order, ready),
    ensures
        placing_pass(parents, order, i).len() > order.len(),
    decreases parents.len() - i,
{
    if !order.contains(i as usize) && parents_in(parents, order, i) {
        placing_one_more(parents, order, i);
        a_pass_places_well(parents, order.push(i as usize), i + 1);
    } else {
        assert(i != ready);
        a_ready_node_is_placed(parents, order, i + 1, ready);
    }
}

proof fn lowest_unplaced(
    parents: Seq<Seq<usize>>,
    order: Seq<usize>,
    rank: Seq<nat>,
    at: int,
) -> (ready: int)
    requires
        parents.len() <= usize::MAX,
        parents_known(parents),
        ranked(parents, rank),
        0 <= at < parents.len(),
        !order.contains(at as usize),
    ensures
        0 <= ready < parents.len(),
        !order.contains(ready as usize),
        parents_in(parents, order, ready),
    decreases rank[at],
{
    if parents_in(parents, order, at) {
        at
    } else {
        let k = choose|k: int|
            0 <= k < parents[at].len() && !order.contains(#[trigger] parents[at][k]);
        let p = parents[at][k] as int;
        lowest_unplaced(parents, order, rank, p)
    }
}

proof fn some_unplaced(parents: Seq<Seq<usize>>, order: Seq<usize>) -> (at: int)
    requires
        parents.len() <= usize::MAX,
        order.len() < parents.len(),
    ensures
        0 <= at < parents.len(),
        !order.contains(at as usize),
{
    if forall|i: int| 0 <= i < parents.len() ==> order.contains(#[trigger] (i as usize)) {
        let ints = order.map_values(|x: usize| x as int);
        let low = vstd::set_lib::set_int_range(0, parents.len() as int);
        vstd::set_lib::lemma_int_range(0, parents.len() as int);
        assert(low.subset_of(ints.to_set())) by {
            assert forall|x: int| low.contains(x) implies ints.to_set().contains(x) by {
                assert(order.contains(x as usize));
                let k = choose|k: int| 0 <= k < order.len() && order[k] == x as usize;
                assert(ints[k] == x);
            }
        }
        vstd::seq_lib::seq_to_set_is_finite(ints);
        vstd::set_lib::lemma_len_subset(low, ints.to_set());
        ints.lemma_cardinality_of_set();
        assert(false);
        0
    } else {
        choose|i: int| 0 <= i < parents.len() && !order.contains(#[trigger] (i as usize))
    }
}

proof fn a_pass_makes_progress(parents: Seq<Seq<usize>>, order: Seq<usize>)
    requires
        parents.len() <= usize::MAX,
        parents_known(parents),
        acyclic(parents),
        placed_well(parents, order),
        order.len() < parents.len(),
    ensures
        placing_pass(parents, order, 0).len() > order.len(),
{
    let rank = choose|rank: Seq<nat>| ranked(parents, rank);
    let at = some_unplaced(parents, order);
    let ready = lowest_unplaced(parents, order, rank, at);
    a_ready_node_is_placed(parents, order, 0, ready);
}

proof fn passes_finish(parents: Seq<Seq<usize>>, order: Seq<usize>, most: nat)
    requires
        parents.len() <= usize::MAX,
        parents_known(parents),
        acyclic(parents),
        placed_well(parents, order),
        order.len() + most >= parents.len(),
    ensures
        parents_first(parents, placing_passes(parents, order, most)),
    decreases most,
{
    placed_well_fits(parents, order);
    if order.len() < parents.len() {
        a_pass_makes_progress(parents, order);
        a_pass_places_well(parents, order, 0);
        passes_finish(parents, placing_pass(parents, order, 0), (most - 1) as nat);
    }
}

/// An acyclic graph is walked whole, each node once and behind its parents.
pub proof fn walk_order_is_parents_first(parents: Seq<Seq<usize>>)
    requires
        parents.len() <= usize::MAX,
        parents_known(parents),
        acyclic(parents),
    ensures
        parents_first(parents, walk_order(parents)),
{
    passes_finish(parents, Seq::empty(), parents.len());
}

proof fn index_pass(parents: Seq<Seq<usize>>, i: int)
    requires
        0 <= i <= parents.len() <= usize::MAX,
        forall|a: int, k: int|
            #![trigger parents[a][k]]
            0 <= a < parents.len() && 0 <= k < parents[a].len() ==> parents[a][k] < a,
    ensures
        placing_pass(parents, Seq::new(i as nat, |j: int| j as usize), i) == Seq::new(
            parents.len(),
            |j: int| j as usize,
        ),
    decreases parents.len() - i,
{
    let order = Seq::new(i as nat, |j: int| j as usize);
    if i < parents.len() {
        assert(!order.contains(i as usize));
        assert forall|k: int| 0 <= k < parents[i].len() implies order.contains(
            #[trigger] parents[i][k],
        ) by {
            assert(order[parents[i][k] as int] == parents[i][k]);
        }
        assert(order.push(i as usize) =~= Seq::new((i + 1) as nat, |j: int| j as usize));
        index_pass(parents, i + 1);
    } else {
        assert(order =~= Seq::new(parents.len(), |j: int| j as usize));
    }
}

/// A graph to which nothing was spliced is walked in index order.
pub proof fn walk_order_is_index_order(parents: Seq<Seq<usize>>)
    requires
        parents.len() <= usize::MAX,
        forall|a: int, k: int|
            #![trigger parents[a][k]]
            0 <= a < parents.len() && 0 <= k < parents[a].len() ==> parents[a][k] < a,
    ensures
        walk_order(parents) == Seq::new(parents.len(), |j: int| j as usize),
{
    index_pass(parents, 0);
    assert(Seq::<usize>::empty() =~= Seq::new(0, |j: int| j as usize));
    let all = Seq::new(parents.len(), |j: int| j as usize);
    if parents.len() > 0 {
        assert(placing_pass(parents, Seq::empty(), 0) == all);
        assert(placing_passes(parents, all, (parents.len() - 1) as nat) == all);
    } else {
        assert(all =~= Seq::empty());
    }
}

} // verus!
