//! Negotiation over the pull graph: arc consistency, then fixation.
//!
//! Forward sweeps narrow every node's output link through its constraint,
//! backward sweeps intersect each link with what its consumers still
//! accept. A fan-in couples its inputs through the shared consumer, so the
//! sweeps repeat until the links stop changing. Fixation then chooses
//! concrete caps, parents first, by backtracking: where branches of a
//! diamond prefer different values, the greedy choice per link may be
//! jointly impossible. The greedy choice is tried first.

use vstd::prelude::*;

use crate::caps;
use crate::caps::{Caps, CapsPattern, CapsSet, Constraint, ConstraintModel, PatternModel};
use crate::error::{Error, LinkFault};
use crate::graph;
use crate::graph::{Graph, NodeId};
use crate::plug;

verus! {

/// Why negotiation failed.
pub enum Fault {
    EmptyLink { upstream: usize, downstream: usize, fault: LinkFault },
    Unfixable { upstream: usize, downstream: usize },
}

/// The links of a graph: what each node's output may still carry.
pub type Links = Seq<Seq<PatternModel>>;

/// What a list of sets says.
pub open spec fn link_models(links: Seq<CapsSet>) -> Links {
    Seq::new(links.len(), |i: int| links[i]@)
}

/// What all of a node's first `k` parents can offer at once.
pub open spec fn offered(links: Links, parents: Seq<usize>, k: int) -> Seq<PatternModel>
    decreases k,
{
    if k <= 1 {
        links[parents[0] as int]
    } else {
        caps::set_meet(offered(links, parents, k - 1), links[parents[k - 1] as int])
    }
}

/// The first parent of a node, or the node itself where it has none.
pub open spec fn first_parent(parents: Seq<usize>, i: usize) -> usize {
    if parents.len() == 0 {
        i
    } else {
        parents[0]
    }
}

/// A node's output link after one forward step.
pub open spec fn forward_step(
    demand: ConstraintModel,
    parents: Seq<usize>,
    links: Links,
    i: usize,
) -> Result<Seq<PatternModel>, Fault> {
    let up = caps::set_meet(offered(links, parents, parents.len() as int), demand.accepts());
    if parents.len() > 0 && up.len() == 0 {
        Err(
            Fault::EmptyLink {
                upstream: parents[0],
                downstream: i,
                fault: LinkFault::NothingAccepted,
            },
        )
    } else {
        let made = if parents.len() == 0 {
            demand.outputs(caps::any_model())
        } else {
            demand.outputs(up)
        };
        let narrowed = caps::set_meet(links[i as int], made);
        if narrowed.len() == 0 {
            Err(
                Fault::EmptyLink {
                    upstream: first_parent(parents, i),
                    downstream: i,
                    fault: LinkFault::NoOutput,
                },
            )
        } else {
            Ok(narrowed)
        }
    }
}

/// The problem that negotiation works on: demands and parents per node and
/// the order in which nodes are walked.
pub struct Problem {
    pub demands: Seq<ConstraintModel>,
    pub parents: Seq<Seq<usize>>,
    pub order: Seq<usize>,
}

impl Problem {
    pub open spec fn wf(self) -> bool {
        &&& self.demands.len() == self.parents.len()
        &&& self.parents.len() <= usize::MAX
        &&& graph::parents_known(self.parents)
        &&& graph::parents_first(self.parents, self.order)
    }

    pub open spec fn size(self) -> nat {
        self.parents.len()
    }

    /// The forward sweep from place `k` of the order on.
    pub open spec fn forward(self, links: Links, k: int) -> Result<Links, Fault>
        decreases self.order.len() - k,
    {
        if k >= self.order.len() {
            Ok(links)
        } else {
            let i = self.order[k];
            match forward_step(self.demands[i as int], self.parents[i as int], links, i) {
                Err(e) => Err(e),
                Ok(link) => self.forward(links.update(i as int, link), k + 1),
            }
        }
    }

    /// The pin that child `c` puts on the link of its parent `i`: its own
    /// link and those of its first `m` parents other than `i`.
    pub open spec fn pin(self, links: Links, c: usize, i: usize, m: int) -> Seq<PatternModel>
        decreases m,
    {
        if m <= 0 {
            links[c as int]
        } else {
            let q = self.parents[c as int][m - 1];
            let before = self.pin(links, c, i, m - 1);
            if q == i {
                before
            } else {
                caps::set_meet(before, links[q as int])
            }
        }
    }

    /// What child `c` leaves of the link of its parent `i`.
    pub open spec fn left_by_child(self, links: Links, c: usize, i: usize) -> Seq<PatternModel> {
        self.demands[c as int].narrowed(
            caps::set_meet(links[i as int], self.demands[c as int].accepts()),
            self.pin(links, c, i, self.parents[c as int].len() as int),
        )
    }

    /// The link of node `i` narrowed by its children from the `k`-th on.
    pub open spec fn backward_children(
        self,
        links: Links,
        i: usize,
        children: Seq<usize>,
        k: int,
    ) -> Result<Links, Fault>
        decreases children.len() - k,
    {
        if k >= children.len() {
            Ok(links)
        } else {
            let c = children[k];
            let left = self.left_by_child(links, c, i);
            if left.len() == 0 {
                Err(
                    Fault::EmptyLink { upstream: i, downstream: c, fault: LinkFault::NoCommonCaps },
                )
            } else {
                self.backward_children(links.update(i as int, left), i, children, k + 1)
            }
        }
    }

    /// The backward sweep over the first `k` places of the order, last
    /// first.
    pub open spec fn backward(self, links: Links, k: int) -> Result<Links, Fault>
        decreases k,
    {
        if k <= 0 {
            Ok(links)
        } else {
            let i = self.order[k - 1];
            match self.backward_children(
                links,
                i,
                graph::children_among(self.parents, i, self.parents.len() as int),
                0,
            ) {
                Err(e) => Err(e),
                Ok(next) => self.backward(next, k - 1),
            }
        }
    }

    /// A forward sweep, then a backward one.
    pub open spec fn sweep(self, links: Links) -> Result<Links, Fault> {
        match self.forward(links, 0) {
            Err(e) => Err(e),
            Ok(next) => self.backward(next, self.order.len() as int),
        }
    }

    /// Sweeps until the links stop changing, at most so many.
    pub open spec fn narrowed(self, links: Links, most: nat) -> Result<Links, Fault>
        decreases most,
    {
        if most == 0 {
            Ok(links)
        } else {
            match self.sweep(links) {
                Err(e) => Err(e),
                Ok(next) => if same_links(next, links) {
                    Ok(next)
                } else {
                    self.narrowed(next, (most - 1) as nat)
                },
            }
        }
    }

    /// The links that negotiation ends with.
    pub open spec fn negotiated(self) -> Result<Links, Fault> {
        self.narrowed(
            Seq::new(self.size(), |i: int| caps::any_model()),
            (8 * self.size() + 4) as nat,
        )
    }

    /// What the fixed caps of a node's first `k` parents have in common.
    pub open spec fn fixed_input(
        self,
        fixed: Seq<Option<Caps>>,
        parents: Seq<usize>,
        k: int,
    ) -> Option<PatternModel>
        decreases k,
    {
        if k <= 1 {
            Some((fixed[parents[0] as int]->0).as_pattern())
        } else {
            match self.fixed_input(fixed, parents, k - 1) {
                None => None,
                Some(p) => p.meet((fixed[parents[k - 1] as int]->0).as_pattern()),
            }
        }
    }

    /// The patterns that a node can still put out once its parents' caps are
    /// fixed.
    pub open spec fn choices(
        self,
        links: Links,
        fixed: Seq<Option<Caps>>,
        i: usize,
    ) -> Seq<PatternModel> {
        let parents = self.parents[i as int];
        if parents.len() == 0 {
            links[i as int]
        } else {
            match self.fixed_input(fixed, parents, parents.len() as int) {
                None => Seq::empty(),
                Some(p) => if p.empty() {
                    Seq::empty()
                } else {
                    caps::set_meet(self.demands[i as int].outputs(seq![p]), links[i as int])
                },
            }
        }
    }

    /// The concrete caps a node can take, in the link's order of preference.
    pub open spec fn candidates(
        self,
        links: Links,
        fixed: Seq<Option<Caps>>,
        i: usize,
    ) -> Seq<Caps> {
        distinct_caps(self.choices(links, fixed, i))
    }

    /// The first consistent choice for the nodes from place `k` on, and the
    /// furthest place at which no candidate was left.
    pub open spec fn search(
        self,
        links: Links,
        fixed: Seq<Option<Caps>>,
        deepest: int,
        k: int,
    ) -> (Option<Seq<Option<Caps>>>, int)
        decreases self.order.len() - k, 1int, 0int,
    {
        if k >= self.order.len() {
            (Some(fixed), deepest)
        } else {
            let candidates = self.candidates(links, fixed, self.order[k]);
            let reached = if candidates.len() == 0 && k > deepest {
                k
            } else {
                deepest
            };
            self.try_from(links, fixed, reached, k, candidates, 0)
        }
    }

    /// The search at place `k` from its `j`-th candidate on.
    pub open spec fn try_from(
        self,
        links: Links,
        fixed: Seq<Option<Caps>>,
        deepest: int,
        k: int,
        candidates: Seq<Caps>,
        j: int,
    ) -> (Option<Seq<Option<Caps>>>, int)
        decreases self.order.len() - k, 0int, candidates.len() - j,
    {
        if k >= self.order.len() || j >= candidates.len() {
            (None, deepest)
        } else {
            let (found, reached) = self.search(
                links,
                fixed.update(self.order[k] as int, Some(candidates[j])),
                deepest,
                k + 1,
            );
            if found is Some {
                (found, reached)
            } else {
                self.try_from(links, fixed, reached, k, candidates, j + 1)
            }
        }
    }

    /// Fixed caps are one of the candidates at every node.
    pub open spec fn consistent(self, links: Links, fixed: Seq<Option<Caps>>) -> bool {
        &&& fixed.len() == self.size()
        &&& forall|i: int| 0 <= i < fixed.len() ==> (#[trigger] fixed[i]) is Some
        &&& forall|i: int|
            0 <= i < fixed.len() ==> self.candidates(links, fixed, i as usize).contains(
                (#[trigger] fixed[i])->0,
            )
    }

    /// Fixation over negotiated links.
    pub open spec fn fixation(self, links: Links) -> (Option<Seq<Option<Caps>>>, int) {
        self.search(links, Seq::new(self.size(), |i: int| None), 0, 0)
    }

    /// The whole negotiation: one fixed caps per node's output link.
    pub open spec fn solution(self) -> Result<Seq<Caps>, Fault> {
        match self.negotiated() {
            Err(e) => Err(e),
            Ok(links) => match self.fixation(links) {
                (Some(fixed), _) => Ok(Seq::new(fixed.len(), |i: int| fixed[i]->0)),
                (None, deepest) => Err(
                    Fault::Unfixable {
                        upstream: first_parent(
                            self.parents[self.order[deepest] as int],
                            self.order[deepest],
                        ),
                        downstream: self.order[deepest],
                    },
                ),
            },
        }
    }
}

/// The links compare equal, node by node.
pub open spec fn same_links(a: Links, b: Links) -> bool {
    a.len() == b.len() && forall|i: int| 0 <= i < a.len() ==> caps::same_set(#[trigger] a[i], b[i])
}

/// Whether caps compare equal to one of a list.
pub open spec fn caps_listed(list: Seq<Caps>, c: Caps) -> bool {
    exists|i: int| 0 <= i < list.len() && (#[trigger] list[i]).equals(c)
}

/// The fixed caps of each pattern that has any, in order, each once.
pub open spec fn distinct_caps(patterns: Seq<PatternModel>) -> Seq<Caps>
    decreases patterns.len(),
{
    if patterns.len() == 0 {
        Seq::empty()
    } else {
        let before = distinct_caps(patterns.drop_last());
        match caps::fixed_caps(patterns.last()) {
            Some(c) => if caps_listed(before, c) {
                before
            } else {
                before.push(c)
            },
            None => before,
        }
    }
}

/// The graph as negotiation sees it.
pub open spec fn problem_of(g: &Graph) -> Problem {
    Problem {
        demands: g.demands(),
        parents: g.parent_lists(),
        order: graph::walk_order(g.parent_lists()),
    }
}

/// The error that a fault is reported as.
pub open spec fn reported(p: Problem, links: Links, f: Fault, e: Error) -> bool {
    match f {
        Fault::EmptyLink { upstream, downstream, fault } => e matches Error::EmptyLink {
            upstream: u,
            downstream: d,
            fault: w,
            accepts,
        } && u.0 == upstream && d.0 == downstream && w == fault && accepts@
            == p.demands[downstream as int].accepts(),
        Fault::Unfixable { upstream, downstream } => e matches Error::Unfixable {
            upstream: u,
            downstream: d,
            remaining,
        } && u.0 == upstream && d.0 == downstream && remaining@ == links[downstream as int],
    }
}

struct Instance<'a> {
    graph: &'a Graph,
    parents: Vec<Vec<usize>>,
    order: Vec<usize>,
}

impl<'a> Instance<'a> {
    spec fn problem(&self) -> Problem {
        problem_of(self.graph)
    }

    spec fn wf(&self) -> bool {
        &&& self.problem().wf()
        &&& self.parents@.len() == self.problem().size()
        &&& self.graph.nodes@.len() == self.problem().size()
        &&& forall|i: int|
            0 <= i < self.parents@.len() ==> (#[trigger] self.parents@[i])@
                == self.problem().parents[i]
        &&& self.order@ == self.problem().order
    }

    fn constraint(&self, i: usize) -> (r: &Constraint)
        requires
            self.wf(),
            i < self.problem().size(),
        ensures
            r@ == self.problem().demands[i as int],
    {
        self.graph.nodes[i].constraint()
    }

    fn empty_link(&self, upstream: usize, downstream: usize, fault: LinkFault) -> (e: Error)
        requires
            self.wf(),
            downstream < self.problem().size(),
        ensures
            forall|links: Links|
                #[trigger] reported(
                    self.problem(),
                    links,
                    Fault::EmptyLink { upstream, downstream, fault },
                    e,
                ),
    {
        Error::EmptyLink {
            upstream: NodeId(upstream),
            downstream: NodeId(downstream),
            fault,
            accepts: self.constraint(downstream).input_set(),
        }
    }

    fn offered(&self, links: &Vec<CapsSet>, i: usize) -> (r: CapsSet)
        requires
            self.wf(),
            i < self.problem().size(),
            links@.len() == self.problem().size(),
            self.problem().parents[i as int].len() > 0,
        ensures
            r@ == offered(
                link_models(links@),
                self.problem().parents[i as int],
                self.problem().parents[i as int].len() as int,
            ),
    {
        let ps = &self.parents[i];
        let ghost known = self.problem().parents;
        assert(known[i as int][0] < known.len());
        let mut r = links[ps[0]].copied();
        for k in 1..ps.len()
            invariant
                self.wf(),
                i < self.problem().size(),
                links@.len() == self.problem().size(),
                ps@ == self.problem().parents[i as int],
                known == self.problem().parents,
                ps@.len() > 0,
                r@ == offered(link_models(links@), ps@, k as int),
        {
            assert(known[i as int][k as int] < known.len());
            r = r.intersect(&links[ps[k]]);
        }
        r
    }

    fn forward(&self, links: &mut Vec<CapsSet>) -> (r: Result<(), Error>)
        requires
            self.wf(),
            old(links)@.len() == self.problem().size(),
        ensures
            final(links)@.len() == old(links)@.len(),
            match self.problem().forward(link_models(old(links)@), 0) {
                Ok(next) => r is Ok && link_models(final(links)@) == next,
                Err(f) => r is Err && forall|l: Links|
                    #[trigger] reported(self.problem(), l, f, r->Err_0),
            },
    {
        let ghost start = link_models(links@);
        let ghost p = self.problem();
        let n: usize = self.order.len();
        for k in 0..n
            invariant
                self.wf(),
                p == self.problem(),
                n == p.order.len(),
                start == link_models(old(links)@),
                old(links)@.len() == p.size(),
                links@.len() == p.size(),
                p.forward(start, 0) == p.forward(link_models(links@), k as int),
        {
            let i: usize = self.order[k];
            assert(p.order[k as int] < p.parents.len());
            let ghost now = link_models(links@);
            let made = if self.parents[i].len() == 0 {
                self.constraint(i).output_set(&CapsSet::any())
            } else {
                let up = self.offered(links, i).intersect(&self.constraint(i).input_set());
                if up.is_empty() {
                    return Err(
                        self.empty_link(self.parents[i][0], i, LinkFault::NothingAccepted),
                    );
                }
                self.constraint(i).output_set(&up)
            };
            let narrowed = links[i].intersect(&made);
            if narrowed.is_empty() {
                let up: usize = if self.parents[i].len() == 0 {
                    i
                } else {
                    self.parents[i][0]
                };
                return Err(self.empty_link(up, i, LinkFault::NoOutput));
            }
            let ghost link = narrowed@;
            links.set(i, narrowed);
            assert(link_models(links@) =~= now.update(i as int, link));
        }
        Ok(())
    }

    fn pin(&self, links: &Vec<CapsSet>, c: usize, i: usize) -> (r: CapsSet)
        requires
            self.wf(),
            c < self.problem().size(),
            links@.len() == self.problem().size(),
        ensures
            r@ == self.problem().pin(
                link_models(links@),
                c,
                i,
                self.problem().parents[c as int].len() as int,
            ),
    {
        let ps = &self.parents[c];
        let mut r = links[c].copied();
        for m in 0..ps.len()
            invariant
                self.wf(),
                c < self.problem().size(),
                links@.len() == self.problem().size(),
                ps@ == self.problem().parents[c as int],
                r@ == self.problem().pin(link_models(links@), c, i, m as int),
        {
            let q: usize = ps[m];
            assert(self.problem().parents[c as int][m as int] < self.problem().parents.len());
            if q != i {
                r = r.intersect(&links[q]);
            }
        }
        r
    }

    fn backward(&self, links: &mut Vec<CapsSet>) -> (r: Result<(), Error>)
        requires
            self.wf(),
            old(links)@.len() == self.problem().size(),
        ensures
            final(links)@.len() == old(links)@.len(),
            match self.problem().backward(
                link_models(old(links)@),
                self.problem().order.len() as int,
            ) {
                Ok(next) => r is Ok && link_models(final(links)@) == next,
                Err(f) => r is Err && forall|l: Links|
                    #[trigger] reported(self.problem(), l, f, r->Err_0),
            },
    {
        let ghost start = link_models(links@);
        let ghost p = self.problem();
        let n: usize = self.order.len();
        let mut k: usize = n;
        while k > 0
            invariant
                self.wf(),
                p == self.problem(),
                n == p.order.len(),
                k <= n,
                start == link_models(old(links)@),
                old(links)@.len() == p.size(),
                links@.len() == p.size(),
                p.backward(start, n as int) == p.backward(link_models(links@), k as int),
            decreases k,
        {
            k = k - 1;
            let i: usize = self.order[k];
            assert(p.order[k as int] < p.parents.len());
            let children = self.graph.children(NodeId(i));
            proof {
                children_are_nodes(p.parents, i, p.parents.len() as int);
            }
            let ghost now = link_models(links@);
            for j in 0..children.len()
                invariant
                    self.wf(),
                    p == self.problem(),
                    n == p.order.len(),
                    start == link_models(old(links)@),
                    old(links)@.len() == p.size(),
                    i < p.size(),
                    links@.len() == p.size(),
                    children@ == graph::children_among(p.parents, i, p.parents.len() as int),
                    forall|m: int|
                        0 <= m < children@.len() ==> #[trigger] children@[m] < p.parents.len(),
                    p.backward(start, n as int) == (match p.backward_children(
                        link_models(links@),
                        i,
                        children@,
                        j as int,
                    ) {
                        Err(e) => Err(e),
                        Ok(next) => p.backward(next, k as int),
                    }),
            {
                let c: usize = children[j];
                let ghost before = link_models(links@);
                let pin = self.pin(links, c, i);
                let left = self.constraint(c).narrow_input(
                    &links[i].intersect(&self.constraint(c).input_set()),
                    &pin,
                );
                if left.is_empty() {
                    return Err(self.empty_link(i, c, LinkFault::NoCommonCaps));
                }
                let ghost link = left@;
                links.set(i, left);
                assert(link_models(links@) =~= before.update(i as int, link));
            }
        }
        Ok(())
    }
}

proof fn children_are_nodes(parents: Seq<Seq<usize>>, id: usize, n: int)
    requires
        0 <= n <= parents.len() <= usize::MAX,
    ensures
        forall|m: int|
            0 <= m < graph::children_among(parents, id, n).len() ==> (
            #[trigger] graph::children_among(parents, id, n)[m]) < n,
    decreases n,
{
    if n > 0 {
        children_are_nodes(parents, id, n - 1);
        let before = graph::children_among(parents, id, n - 1);
        let all = graph::children_among(parents, id, n);
        assert forall|m: int| 0 <= m < all.len() implies #[trigger] all[m] < n by {
            if m < before.len() {
                assert(before[m] < n - 1);
            }
        }
    }
}

impl<'a> Instance<'a> {
    /// Sweep until the links stop changing.
    fn narrow(&self) -> (r: Result<Vec<CapsSet>, Error>)
        requires
            self.wf(),
            8 * self.problem().size() + 4 <= usize::MAX,
        ensures
            match self.problem().negotiated() {
                Ok(links) => r matches Ok(l) && l@.len() == self.problem().size() && link_models(l@)
                    == links,
                Err(f) => r matches Err(e) && forall|l: Links|
                    #[trigger] reported(self.problem(), l, f, e),
            },
    {
        let ghost p = self.problem();
        let n: usize = self.graph.len();
        let mut links: Vec<CapsSet> = Vec::new();
        for i in 0..n
            invariant
                links@.len() == i,
                forall|k: int| 0 <= k < i ==> (#[trigger] links@[k])@ == caps::any_model(),
        {
            links.push(CapsSet::any());
        }
        let ghost seed = Seq::new(p.size(), |i: int| caps::any_model());
        assert(link_models(links@) =~= seed);
        let mut left: usize = 8 * n + 4;
        while left > 0
            invariant
                self.wf(),
                p == self.problem(),
                n == p.size(),
                links@.len() == n,
                p.negotiated() == p.narrowed(link_models(links@), left as nat),
            decreases left,
        {
            let ghost before = link_models(links@);
            let snapshot = copy_links(&links);
            match self.forward(&mut links) {
                Err(e) => {
                    return Err(e);
                },
                Ok(()) => {},
            }
            match self.backward(&mut links) {
                Err(e) => {
                    return Err(e);
                },
                Ok(()) => {},
            }
            assert(p.sweep(before) == Ok::<Links, Fault>(link_models(links@)));
            if links_agree(&links, &snapshot) {
                return Ok(links);
            }
            left = left - 1;
        }
        Ok(links)
    }

    fn choices(&self, links: &Vec<CapsSet>, fixed: &Vec<Option<Caps>>, i: usize) -> (r: CapsSet)
        requires
            self.wf(),
            i < self.problem().size(),
            links@.len() == self.problem().size(),
            fixed@.len() == self.problem().size(),
            forall|k: int|
                0 <= k < self.problem().parents[i as int].len()
                    ==> fixed@[#[trigger] self.problem().parents[i as int][k] as int] is Some,
        ensures
            r@ == self.problem().choices(link_models(links@), fixed@, i),
    {
        let ghost p = self.problem();
        let ps = &self.parents[i];
        if ps.len() == 0 {
            return links[i].copied();
        }
        assert(p.parents[i as int][0] < p.parents.len());
        let mut input = fixed[ps[0]].unwrap().pattern();
        for k in 1..ps.len()
            invariant
                self.wf(),
                p == self.problem(),
                i < p.size(),
                ps@ == p.parents[i as int],
                ps@.len() > 0,
                links@.len() == p.size(),
                fixed@.len() == p.size(),
                forall|m: int|
                    0 <= m < ps@.len() ==> fixed@[#[trigger] p.parents[i as int][m] as int] is Some,
                p.fixed_input(fixed@, ps@, k as int) == Some(input@),
        {
            assert(p.parents[i as int][k as int] < p.parents.len());
            let next = fixed[ps[k]].unwrap().pattern();
            match input.intersect(&next) {
                Some(q) => {
                    input = q;
                },
                None => {
                    let r = CapsSet { alternatives: Vec::new() };
                    proof {
                        no_input_stays_none(p, fixed@, ps@, k as int + 1, ps@.len() as int);
                        assert(r@ =~= Seq::empty());
                    }
                    return r;
                },
            }
        }
        if input.is_empty() {
            let r = CapsSet { alternatives: Vec::new() };
            assert(r@ =~= Seq::empty());
            return r;
        }
        let one = CapsSet::one(input);
        self.constraint(i).output_set(&one).intersect(&links[i])
    }

    fn candidates_of(
        &self,
        links: &Vec<CapsSet>,
        fixed: &Vec<Option<Caps>>,
        i: usize,
    ) -> (r: Vec<Caps>)
        requires
            self.wf(),
            i < self.problem().size(),
            links@.len() == self.problem().size(),
            fixed@.len() == self.problem().size(),
            forall|k: int|
                0 <= k < self.problem().parents[i as int].len()
                    ==> fixed@[#[trigger] self.problem().parents[i as int][k] as int] is Some,
        ensures
            r@ == self.problem().candidates(link_models(links@), fixed@, i),
    {
        let set = self.choices(links, fixed, i);
        let mut r: Vec<Caps> = Vec::new();
        for k in 0..set.alternatives.len()
            invariant
                r@ == distinct_caps(set@.take(k as int)),
        {
            assert(set@.take(k as int + 1).drop_last() =~= set@.take(k as int));
            if let Some(c) = set.alternatives[k].fixate() {
                if !lists_caps(&r, c) {
                    r.push(c);
                }
            }
        }
        assert(set@.take(set@.len() as int) =~= set@);
        r
    }

    fn fixate(
        &self,
        links: &Vec<CapsSet>,
        fixed: &mut Vec<Option<Caps>>,
        deepest: &mut usize,
        k: usize,
    ) -> (r: bool)
        requires
            self.wf(),
            links@.len() == self.problem().size(),
            old(fixed)@.len() == self.problem().size(),
            k <= self.problem().size(),
            forall|m: int|
                0 <= m < k ==> old(fixed)@[#[trigger] self.problem().order[m] as int] is Some,
            forall|m: int|
                k <= m < self.problem().size() ==> old(
                    fixed,
                )@[#[trigger] self.problem().order[m] as int] is None,
        ensures
            final(fixed)@.len() == old(fixed)@.len(),
            match self.problem().search(
                link_models(links@),
                old(fixed)@,
                *old(deepest) as int,
                k as int,
            ) {
                (Some(f), d) => r && final(fixed)@ == f && *final(deepest) == d,
                (None, d) => !r && final(fixed)@ == old(fixed)@ && *final(deepest) == d,
            },
        decreases self.problem().size() - k,
    {
        let ghost p = self.problem();
        let ghost start = fixed@;
        let ghost models = link_models(links@);
        if k == self.order.len() {
            return true;
        }
        let i: usize = self.order[k];
        assert(p.order[k as int] < p.parents.len());
        proof {
            earlier_parents(p, k as int);
        }
        let candidates = self.candidates_of(links, fixed, i);
        if candidates.len() == 0 && k > *deepest {
            *deepest = k;
        }
        for j in 0..candidates.len()
            invariant
                self.wf(),
                p == self.problem(),
                start == old(fixed)@,
                models == link_models(links@),
                links@.len() == p.size(),
                start.len() == p.size(),
                fixed@.len() == p.size(),
                k < p.size(),
                p.order.len() == p.size(),
                i == p.order[k as int],
                i < p.size(),
                candidates@ == p.candidates(models, start, i),
                forall|m: int| 0 <= m < k ==> start[#[trigger] p.order[m] as int] is Some,
                forall|m: int|
                    k <= m < p.size() ==> start[#[trigger] p.order[m] as int] is None,
                fixed@ == start.update(i as int, fixed@[i as int]),
                p.search(models, start, *old(deepest) as int, k as int) == p.try_from(
                    models,
                    start,
                    *deepest as int,
                    k as int,
                    candidates@,
                    j as int,
                ),
        {
            fixed.set(i, Some(candidates[j]));
            let ghost tried = start.update(i as int, Some(candidates@[j as int]));
            assert(fixed@ =~= tried);
            assert forall|m: int| 0 <= m < k + 1 implies fixed@[#[trigger] p.order[m] as int] is Some by {
                if m < k {
                    assert(p.order[m] != p.order[k as int]);
                }
            }
            assert forall|m: int| k + 1 <= m < p.size() implies fixed@[#[trigger] p.order[m] as int] is None by {
                assert(p.order[m] != p.order[k as int]);
            }
            if self.fixate(links, fixed, deepest, k + 1) {
                return true;
            }
            assert(fixed@ =~= start.update(i as int, fixed@[i as int]));
        }
        fixed.set(i, None);
        assert(start[p.order[k as int] as int] is None);
        assert(fixed@ =~= start);
        false
    }
}

fn copy_links(links: &Vec<CapsSet>) -> (r: Vec<CapsSet>)
    ensures
        r@.len() == links@.len(),
        link_models(r@) == link_models(links@),
{
    let mut r: Vec<CapsSet> = Vec::new();
    for i in 0..links.len()
        invariant
            r@.len() == i,
            forall|k: int| 0 <= k < i ==> (#[trigger] r@[k])@ == links@[k]@,
    {
        r.push(links[i].copied());
    }
    assert(link_models(r@) =~= link_models(links@));
    r
}

fn links_agree(a: &Vec<CapsSet>, b: &Vec<CapsSet>) -> (r: bool)
    ensures
        r == same_links(link_models(a@), link_models(b@)),
{
    if a.len() != b.len() {
        return false;
    }
    let ghost x = link_models(a@);
    let ghost y = link_models(b@);
    for i in 0..a.len()
        invariant
            a@.len() == b@.len(),
            x == link_models(a@),
            y == link_models(b@),
            forall|k: int| 0 <= k < i ==> caps::same_set(#[trigger] x[k], y[k]),
    {
        if !a[i].same_as(&b[i]) {
            assert(!caps::same_set(x[i as int], y[i as int]));
            return false;
        }
    }
    true
}

fn lists_caps(list: &Vec<Caps>, c: Caps) -> (r: bool)
    ensures
        r == caps_listed(list@, c),
{
    for i in 0..list.len()
        invariant
            forall|k: int| 0 <= k < i ==> !(#[trigger] list@[k]).equals(c),
    {
        if list[i].same_as(&c) {
            assert(list@[i as int].equals(c));
            return true;
        }
    }
    false
}

proof fn no_input_stays_none(
    p: Problem,
    fixed: Seq<Option<Caps>>,
    parents: Seq<usize>,
    k: int,
    n: int,
)
    requires
        2 <= k <= n,
        p.fixed_input(fixed, parents, k) is None,
    ensures
        p.fixed_input(fixed, parents, n) is None,
    decreases n - k,
{
    if k < n {
        no_input_stays_none(p, fixed, parents, k + 1, n);
    }
}

/// A node stands at a place before `k`.
pub open spec fn stands_before(p: Problem, i: usize, k: int) -> bool {
    exists|j: int| 0 <= j < k && #[trigger] p.order[j] == i
}

/// The parents of the node at place `k` stand at earlier places.
pub proof fn earlier_parents(p: Problem, k: int)
    requires
        p.wf(),
        0 <= k < p.order.len(),
    ensures
        forall|m: int|
            0 <= m < p.parents[p.order[k] as int].len() ==> stands_before(
                p,
                #[trigger] p.parents[p.order[k] as int][m],
                k,
            ),
{
    assert(graph::parents_in(p.parents, p.order.take(k), p.order[k] as int));
    assert forall|m: int| 0 <= m < p.parents[p.order[k] as int].len() implies stands_before(
        p,
        #[trigger] p.parents[p.order[k] as int][m],
        k,
    ) by {
        let x = p.parents[p.order[k] as int][m];
        assert(p.order.take(k).contains(x));
        let j = choose|j: int| 0 <= j < p.order.take(k).len() && p.order.take(k)[j] == x;
        assert(p.order[j] == x);
    }
}

proof fn deepest_stays_in_range(
    p: Problem,
    links: Links,
    fixed: Seq<Option<Caps>>,
    deepest: int,
    k: int,
)
    requires
        0 <= deepest,
        0 <= k,
        deepest < p.order.len() || p.order.len() == 0,
    ensures
        0 <= p.search(links, fixed, deepest, k).1,
        p.search(links, fixed, deepest, k).1 < p.order.len() || p.order.len() == 0,
        k >= p.order.len() ==> p.search(links, fixed, deepest, k).0 is Some,
    decreases p.order.len() - k, 1int, 0int,
{
    if k < p.order.len() {
        let candidates = p.candidates(links, fixed, p.order[k]);
        let reached = if candidates.len() == 0 && k > deepest {
            k
        } else {
            deepest
        };
        tried_stays_in_range(p, links, fixed, reached, k, candidates, 0);
    }
}

proof fn tried_stays_in_range(
    p: Problem,
    links: Links,
    fixed: Seq<Option<Caps>>,
    deepest: int,
    k: int,
    candidates: Seq<Caps>,
    j: int,
)
    requires
        0 <= deepest,
        0 <= k,
        0 <= j,
        deepest < p.order.len() || p.order.len() == 0,
    ensures
        0 <= p.try_from(links, fixed, deepest, k, candidates, j).1,
        p.try_from(links, fixed, deepest, k, candidates, j).1 < p.order.len() || p.order.len() == 0,
    decreases p.order.len() - k, 0int, candidates.len() - j,
{
    if k < p.order.len() && j < candidates.len() {
        let next = fixed.update(p.order[k] as int, Some(candidates[j]));
        deepest_stays_in_range(p, links, next, deepest, k + 1);
        let (found, reached) = p.search(links, next, deepest, k + 1);
        tried_stays_in_range(p, links, fixed, reached, k, candidates, j + 1);
    }
}

/// One fixed caps per node's output link.
pub fn solve(graph: &Graph) -> (r: Result<Vec<Caps>, Error>)
    requires
        graph.wf(),
        8 * graph.nodes@.len() + 4 <= usize::MAX,
    ensures
        match problem_of(graph).solution() {
            Ok(fixed) => r matches Ok(f) && f@ == fixed,
            Err(fault) => r matches Err(e) && reported(
                problem_of(graph),
                problem_of(graph).negotiated()->Ok_0,
                fault,
                e,
            ),
        },
{
    let n: usize = graph.len();
    let order = graph.topo_order();
    let mut parents: Vec<Vec<usize>> = Vec::new();
    for i in 0..n
        invariant
            n == graph.nodes@.len(),
            parents@.len() == i,
            forall|k: int| 0 <= k < i ==> (#[trigger] parents@[k])@ == graph.parent_lists()[k],
    {
        parents.push(graph.parents(NodeId(i)));
    }
    let instance = Instance { graph, parents, order };
    let ghost p = instance.problem();
    let links = match instance.narrow() {
        Ok(links) => links,
        Err(e) => {
            return Err(e);
        },
    };
    let mut fixed: Vec<Option<Caps>> = Vec::new();
    for i in 0..n
        invariant
            fixed@.len() == i,
            forall|k: int| 0 <= k < i ==> (#[trigger] fixed@[k]) is None,
    {
        fixed.push(None);
    }
    let ghost models = link_models(links@);
    assert(fixed@ =~= Seq::new(p.size(), |i: int| None));
    let mut deepest: usize = 0;
    proof {
        deepest_stays_in_range(p, models, fixed@, 0, 0);
    }
    assert forall|m: int| 0 <= m < p.size() implies fixed@[#[trigger] p.order[m] as int] is None by {
        assert(p.order[m] < p.parents.len());
    }
    if !instance.fixate(&links, &mut fixed, &mut deepest, 0) {
        let i: usize = instance.order[deepest];
        assert(p.order[deepest as int] < p.parents.len());
        let up: usize = if instance.parents[i].len() == 0 {
            i
        } else {
            instance.parents[i][0]
        };
        return Err(
            Error::Unfixable {
                upstream: NodeId(up),
                downstream: NodeId(i),
                remaining: links[i].copied(),
            },
        );
    }
    proof {
        found_is_consistent(p, models, Seq::new(p.size(), |i: int| None), 0, 0);
    }
    let mut r: Vec<Caps> = Vec::new();
    for i in 0..n
        invariant
            n == fixed@.len(),
            r@.len() == i,
            forall|k: int| 0 <= k < n ==> (#[trigger] fixed@[k]) is Some,
            forall|k: int| 0 <= k < i ==> #[trigger] r@[k] == fixed@[k]->0,
    {
        r.push(fixed[i].unwrap());
    }
    assert(r@ =~= Seq::new(fixed@.len(), |i: int| fixed@[i]->0));
    Ok(r)
}

/// What a node would put out, before its consumers narrow it: the forward
/// sweep, past the nodes at which it fails.
pub fn offer_of(graph: &Graph, node: usize) -> (r: CapsSet)
    requires
        graph.wf(),
        node < graph.nodes@.len(),
    ensures
        r@ == plug::all_offers(problem_of(graph))[node as int],
{
    let n: usize = graph.len();
    let order = graph.topo_order();
    let mut parents: Vec<Vec<usize>> = Vec::new();
    for i in 0..n
        invariant
            n == graph.nodes@.len(),
            parents@.len() == i,
            forall|k: int| 0 <= k < i ==> (#[trigger] parents@[k])@ == graph.parent_lists()[k],
    {
        parents.push(graph.parents(NodeId(i)));
    }
    let instance = Instance { graph, parents, order };
    let ghost p = instance.problem();
    let mut links: Vec<CapsSet> = Vec::new();
    for i in 0..n
        invariant
            links@.len() == i,
            forall|k: int| 0 <= k < i ==> (#[trigger] links@[k])@ == caps::any_model(),
    {
        links.push(CapsSet::any());
    }
    assert(link_models(links@) =~= Seq::new(p.size(), |i: int| caps::any_model()));
    let steps: usize = instance.order.len();
    for k in 0..steps
        invariant
            instance.wf(),
            p == instance.problem(),
            steps == p.order.len(),
            links@.len() == p.size(),
            plug::all_offers(p) == plug::offers(p, link_models(links@), k as int),
    {
        let i: usize = instance.order[k];
        assert(p.order[k as int] < p.parents.len());
        let ghost now = link_models(links@);
        let mut taken: bool = true;
        let made = if instance.parents[i].len() == 0 {
            instance.constraint(i).output_set(&CapsSet::any())
        } else {
            let up = instance.offered(&links, i).intersect(&instance.constraint(i).input_set());
            if up.is_empty() {
                taken = false;
            }
            instance.constraint(i).output_set(&up)
        };
        let narrowed = links[i].intersect(&made);
        if narrowed.is_empty() {
            taken = false;
        }
        let ghost link = narrowed@;
        if taken {
            links.set(i, narrowed);
            assert(link_models(links@) =~= now.update(i as int, link));
        }
    }
    assert(link_models(links@)[node as int] == links@[node as int]@);
    links[node].copied()
}

/// The candidates of a node depend on its parents' caps alone.
proof fn candidates_depend_on_parents(
    p: Problem,
    links: Links,
    a: Seq<Option<Caps>>,
    b: Seq<Option<Caps>>,
    i: usize,
)
    requires
        forall|m: int|
            0 <= m < p.parents[i as int].len() ==> a[#[trigger] p.parents[i as int][m] as int]
                == b[p.parents[i as int][m] as int],
    ensures
        p.candidates(links, a, i) == p.candidates(links, b, i),
{
    let parents = p.parents[i as int];
    if parents.len() > 0 {
        inputs_agree(p, a, b, parents, parents.len() as int);
    }
}

proof fn inputs_agree(
    p: Problem,
    a: Seq<Option<Caps>>,
    b: Seq<Option<Caps>>,
    parents: Seq<usize>,
    k: int,
)
    requires
        0 < k <= parents.len(),
        forall|m: int|
            0 <= m < parents.len() ==> a[#[trigger] parents[m] as int] == b[parents[m] as int],
    ensures
        p.fixed_input(a, parents, k) == p.fixed_input(b, parents, k),
    decreases k,
{
    assert(a[parents[0] as int] == b[parents[0] as int]);
    if k > 1 {
        inputs_agree(p, a, b, parents, k - 1);
        assert(a[parents[k - 1] as int] == b[parents[k - 1] as int]);
    }
}

/// A choice is consistent at the places before `k`.
pub open spec fn consistent_before(
    p: Problem,
    links: Links,
    fixed: Seq<Option<Caps>>,
    k: int,
) -> bool {
    &&& fixed.len() == p.size()
    &&& forall|m: int| 0 <= m < k ==> fixed[#[trigger] p.order[m] as int] is Some
    &&& forall|m: int|
        0 <= m < k ==> p.candidates(links, fixed, #[trigger] p.order[m]).contains(
            fixed[p.order[m] as int]->0,
        )
}

proof fn one_more_consistent(
    p: Problem,
    links: Links,
    fixed: Seq<Option<Caps>>,
    k: int,
    c: Caps,
)
    requires
        p.wf(),
        0 <= k < p.order.len(),
        consistent_before(p, links, fixed, k),
        p.candidates(links, fixed, p.order[k]).contains(c),
    ensures
        consistent_before(p, links, fixed.update(p.order[k] as int, Some(c)), k + 1),
{
    let i = p.order[k];
    let next = fixed.update(i as int, Some(c));
    assert forall|m: int| 0 <= m < k + 1 implies next[#[trigger] p.order[m] as int] is Some by {
        assert(p.order[m] < p.parents.len());
        if m < k {
            assert(p.order[m] != p.order[k]);
        }
    }
    assert forall|m: int| 0 <= m < k + 1 implies p.candidates(
        links,
        next,
        #[trigger] p.order[m],
    ).contains(next[p.order[m] as int]->0) by {
        earlier_parents(p, m);
        let j = p.order[m];
        assert forall|a: int| 0 <= a < p.parents[j as int].len() implies fixed[
        #[trigger] p.parents[j as int][a] as int] == next[p.parents[j as int][a] as int] by {
            assert(stands_before(p, p.parents[p.order[m] as int][a], m));
            let e = choose|e: int|
                0 <= e < m && #[trigger] p.order[e] == p.parents[p.order[m] as int][a];
            assert(p.order[e] != p.order[k]);
        }
        candidates_depend_on_parents(p, links, fixed, next, j);
        if m < k {
            assert(p.order[m] != p.order[k]);
        }
    }
}

/// What the search finds is one of the candidates at every node.
proof fn found_is_consistent(
    p: Problem,
    links: Links,
    fixed: Seq<Option<Caps>>,
    deepest: int,
    k: int,
)
    requires
        p.wf(),
        0 <= k <= p.order.len(),
        consistent_before(p, links, fixed, k),
    ensures
        p.search(links, fixed, deepest, k).0 matches Some(f) ==> p.consistent(links, f),
    decreases p.order.len() - k, 1int, 0int,
{
    if k < p.order.len() {
        let candidates = p.candidates(links, fixed, p.order[k]);
        let reached = if candidates.len() == 0 && k > deepest {
            k
        } else {
            deepest
        };
        tried_is_consistent(p, links, fixed, reached, k, candidates, 0);
    } else {
        assert forall|i: int| 0 <= i < fixed.len() implies (#[trigger] fixed[i]) is Some && p.candidates(
            links,
            fixed,
            i as usize,
        ).contains(fixed[i]->0) by {
            let m = place_of(p, i);
            assert(p.order[m] == i as usize);
        }
    }
}

proof fn tried_is_consistent(
    p: Problem,
    links: Links,
    fixed: Seq<Option<Caps>>,
    deepest: int,
    k: int,
    candidates: Seq<Caps>,
    j: int,
)
    requires
        p.wf(),
        0 <= k < p.order.len(),
        0 <= j,
        consistent_before(p, links, fixed, k),
        candidates == p.candidates(links, fixed, p.order[k]),
    ensures
        p.try_from(links, fixed, deepest, k, candidates, j).0 matches Some(f) ==> p.consistent(
            links,
            f,
        ),
    decreases p.order.len() - k, 0int, candidates.len() - j,
{
    if j < candidates.len() {
        assert(candidates.contains(candidates[j]));
        one_more_consistent(p, links, fixed, k, candidates[j]);
        let next = fixed.update(p.order[k] as int, Some(candidates[j]));
        found_is_consistent(p, links, next, deepest, k + 1);
        let (found, reached) = p.search(links, next, deepest, k + 1);
        tried_is_consistent(p, links, fixed, reached, k, candidates, j + 1);
    }
}

/// Every node has a place in the order.
pub proof fn place_of(p: Problem, i: int) -> (m: int)
    requires
        p.wf(),
        0 <= i < p.size(),
    ensures
        0 <= m < p.order.len(),
        p.order[m] == i,
{
    let ints = p.order.map_values(|x: usize| x as int);
    let low = vstd::set_lib::set_int_range(0, p.size() as int);
    vstd::set_lib::lemma_int_range(0, p.size() as int);
    assert(ints.no_duplicates()) by {
        assert forall|a: int, b: int| 0 <= a < ints.len() && 0 <= b < ints.len() && a != b implies
            ints[a] != ints[b] by {
            assert(p.order[a] != p.order[b]);
        }
    }
    ints.unique_seq_to_set();
    assert(ints.to_set().subset_of(low)) by {
        assert forall|x: int| ints.to_set().contains(x) implies low.contains(x) by {
            let k = choose|k: int| 0 <= k < ints.len() && ints[k] == x;
            assert(p.order[k] < p.parents.len());
        }
    }
    vstd::set_lib::lemma_subset_equality(ints.to_set(), low);
    assert(low.contains(i));
    assert(ints.to_set().contains(i));
    let m = choose|k: int| 0 <= k < ints.len() && ints[k] == i;
    assert(p.order[m] == i);
    m
}

/// Two choices agree at the places before `k`.
pub open spec fn agree_before(
    p: Problem,
    a: Seq<Option<Caps>>,
    b: Seq<Option<Caps>>,
    k: int,
) -> bool {
    a.len() == b.len() && forall|m: int|
        0 <= m < k ==> a[#[trigger] p.order[m] as int] == b[p.order[m] as int]
}

/// The search misses nothing: where a consistent choice extends what is
/// fixed, something is found.
proof fn search_is_complete(
    p: Problem,
    links: Links,
    fixed: Seq<Option<Caps>>,
    deepest: int,
    k: int,
    whole: Seq<Option<Caps>>,
)
    requires
        p.wf(),
        0 <= k <= p.order.len(),
        p.consistent(links, whole),
        agree_before(p, fixed, whole, k),
    ensures
        p.search(links, fixed, deepest, k).0 is Some,
    decreases p.order.len() - k, 1int, 0int,
{
    if k < p.order.len() {
        let i = p.order[k];
        assert(i < p.parents.len());
        let candidates = p.candidates(links, fixed, i);
        let reached = if candidates.len() == 0 && k > deepest {
            k
        } else {
            deepest
        };
        earlier_parents(p, k);
        assert forall|a: int| 0 <= a < p.parents[i as int].len() implies fixed[
        #[trigger] p.parents[i as int][a] as int] == whole[p.parents[i as int][a] as int] by {
            assert(stands_before(p, p.parents[p.order[k] as int][a], k));
            let e = choose|e: int|
                0 <= e < k && #[trigger] p.order[e] == p.parents[p.order[k] as int][a];
            assert(fixed[p.order[e] as int] == whole[p.order[e] as int]);
        }
        candidates_depend_on_parents(p, links, fixed, whole, i);
        assert(whole[i as int] is Some);
        assert(candidates.contains(whole[i as int]->0));
        let j = choose|j: int| 0 <= j < candidates.len() && candidates[j] == whole[i as int]->0;
        trying_is_complete(p, links, fixed, reached, k, candidates, 0, j, whole);
    }
}

proof fn trying_is_complete(
    p: Problem,
    links: Links,
    fixed: Seq<Option<Caps>>,
    deepest: int,
    k: int,
    candidates: Seq<Caps>,
    j: int,
    hit: int,
    whole: Seq<Option<Caps>>,
)
    requires
        p.wf(),
        0 <= k < p.order.len(),
        0 <= j <= hit < candidates.len(),
        p.consistent(links, whole),
        agree_before(p, fixed, whole, k),
        whole[p.order[k] as int] == Some(candidates[hit]),
    ensures
        p.try_from(links, fixed, deepest, k, candidates, j).0 is Some,
    decreases p.order.len() - k, 0int, candidates.len() - j,
{
    let next = fixed.update(p.order[k] as int, Some(candidates[j]));
    if j == hit {
        assert(agree_before(p, next, whole, k + 1)) by {
            assert forall|m: int| 0 <= m < k + 1 implies next[#[trigger] p.order[m] as int]
                == whole[p.order[m] as int] by {
                assert(p.order[m] < p.parents.len());
                if m < k {
                    assert(p.order[m] != p.order[k]);
                }
            }
        }
        search_is_complete(p, links, next, deepest, k + 1, whole);
    } else {
        let (found, reached) = p.search(links, next, deepest, k + 1);
        if found is None {
            trying_is_complete(p, links, fixed, reached, k, candidates, j + 1, hit, whole);
        }
    }
}

/// Fixation finds a choice exactly where a consistent one exists, and what
/// it finds is consistent.
pub proof fn fixation_is_sound_and_complete(p: Problem, links: Links)
    requires
        p.wf(),
    ensures
        p.fixation(links).0 matches Some(f) ==> p.consistent(links, f),
        p.fixation(links).0 is None ==> forall|f: Seq<Option<Caps>>| !p.consistent(links, f),
{
    let none = Seq::new(p.size(), |i: int| None);
    found_is_consistent(p, links, none, 0, 0);
    assert forall|f: Seq<Option<Caps>>| p.consistent(links, f) implies p.fixation(
        links,
    ).0 is Some by {
        search_is_complete(p, links, none, 0, 0, f);
    }
}

} // verus!
