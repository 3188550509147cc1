//! Byte ranges of remote files, fetched once and kept within a budget. A
//! range that one caller is fetching is not fetched by another: it is
//! waited for, and taken over when the fetch fails.

use vstd::prelude::*;

use crate::sums;
use crate::table;
use crate::text;

verus! {

/// The bytes of ranges that are kept.
pub const RANGE_CACHE_BUDGET: usize = 268435456;

/// A range of a file.
#[derive(Debug)]
pub struct RangeKey {
    pub url: String,
    pub offset: u64,
    pub len: u64,
}

#[verifier::ext_equal]
pub struct RangeName {
    pub url: Seq<char>,
    pub offset: u64,
    pub len: u64,
}

impl View for RangeKey {
    type V = RangeName;

    open spec fn view(&self) -> RangeName {
        RangeName { url: self.url@, offset: self.offset, len: self.len }
    }
}

#[derive(Debug)]
enum RangeSlot {
    Pending,
    Ready { bytes: Vec<u8>, used: u64 },
}

/// What is known of a range.
pub enum RangeModel {
    /// A fetch is in flight.
    Pending,
    /// Its bytes are here, last used at a tick.
    Ready { bytes: Seq<u8>, used: u64 },
}

impl View for RangeSlot {
    type V = RangeModel;

    closed spec fn view(&self) -> RangeModel {
        match *self {
            RangeSlot::Pending => RangeModel::Pending,
            RangeSlot::Ready { bytes, used } => RangeModel::Ready { bytes: bytes@, used },
        }
    }
}

/// What a look at a range found.
#[derive(Debug)]
pub enum Probe {
    Ready(Vec<u8>),
    /// The range is the caller's to fetch and publish.
    Claimed,
    /// Another caller is fetching it.
    InFlight,
}

/// The bytes that a range takes up.
pub open spec fn held(r: RangeModel) -> nat {
    match r {
        RangeModel::Pending => 0,
        RangeModel::Ready { bytes, .. } => bytes.len(),
    }
}

/// The bytes that all ranges take up.
pub open spec fn all_held(m: Map<RangeName, RangeModel>) -> nat {
    sums::map_total(m, |r: RangeModel| held(r))
}

/// The bytes of a range are here.
pub open spec fn is_ready(m: Map<RangeName, RangeModel>, k: RangeName) -> bool {
    m.contains_key(k) && m[k] is Ready
}

/// A caller is fetching a range.
pub open spec fn is_pending(m: Map<RangeName, RangeModel>, k: RangeName) -> bool {
    m.contains_key(k) && m[k] is Pending
}

/// The range that has not been used for the longest time.
pub open spec fn is_oldest(m: Map<RangeName, RangeModel>, k: RangeName) -> bool {
    is_ready(m, k) && forall|j: RangeName|
        #[trigger] m.contains_key(j) && m[j] is Ready && j != k ==> m[k]->used < m[j]->used
}

pub open spec fn oldest(m: Map<RangeName, RangeModel>) -> RangeName {
    choose|k: RangeName| is_oldest(m, k)
}

/// Ranges leave, the longest unused first, until the budget holds.
pub open spec fn trimmed(m: Map<RangeName, RangeModel>) -> Map<RangeName, RangeModel>
    decreases m.dom().len(),
    when m.dom().finite()
    via trimmed_shrinks
{
    if all_held(m) <= RANGE_CACHE_BUDGET || !is_oldest(m, oldest(m)) {
        m
    } else {
        trimmed(m.remove(oldest(m)))
    }
}

#[via_fn]
proof fn trimmed_shrinks(m: Map<RangeName, RangeModel>) {
    if m.contains_key(oldest(m)) {
        assert(m.remove(oldest(m)).dom() =~= m.dom().remove(oldest(m)));
    }
}

/// No two ranges were last used at one tick, nor one after `tick`.
pub open spec fn told_apart(m: Map<RangeName, RangeModel>, tick: nat) -> bool {
    &&& forall|k: RangeName| #[trigger]
        m.contains_key(k) && m[k] is Ready ==> m[k]->used <= tick
    &&& forall|j: RangeName, k: RangeName|
        #[trigger] m.contains_key(j) && #[trigger] m.contains_key(k) && m[j] is Ready
            && m[k] is Ready && j != k ==> m[j]->used != m[k]->used
}

/// The ranges once one was looked at, at a tick.
pub open spec fn probed(m: Map<RangeName, RangeModel>, k: RangeName, tick: nat) -> Map<
    RangeName,
    RangeModel,
> {
    if !m.contains_key(k) {
        m.insert(k, RangeModel::Pending)
    } else {
        match m[k] {
            RangeModel::Pending => m,
            RangeModel::Ready { bytes, .. } => m.insert(
                k,
                RangeModel::Ready { bytes, used: tick as u64 },
            ),
        }
    }
}

/// What a look at a range finds.
pub open spec fn finds(p: Probe, m: Map<RangeName, RangeModel>, k: RangeName) -> bool {
    if !m.contains_key(k) {
        p is Claimed
    } else {
        match m[k] {
            RangeModel::Pending => p is InFlight,
            RangeModel::Ready { bytes, .. } => p matches Probe::Ready(b) && b@ == bytes,
        }
    }
}

/// The ranges once a claimed one was published, at a tick.
pub open spec fn published(
    m: Map<RangeName, RangeModel>,
    k: RangeName,
    fetched: Option<Seq<u8>>,
    tick: nat,
) -> Map<RangeName, RangeModel> {
    match fetched {
        Some(bytes) => trimmed(m.insert(k, RangeModel::Ready { bytes, used: tick as u64 })),
        None => m.remove(k),
    }
}

/// What is known of each range, and how often the cache was asked.
pub struct RangeState {
    pub ranges: Map<RangeName, RangeModel>,
    pub tick: nat,
}

impl RangeState {
    /// Finitely many ranges, told apart by their use.
    pub open spec fn sound(self) -> bool {
        self.ranges.dom().finite() && told_apart(self.ranges, self.tick)
    }

    /// Once a range was looked at.
    pub open spec fn looked(self, k: RangeName) -> RangeState {
        RangeState { ranges: probed(self.ranges, k, self.tick + 1), tick: self.tick + 1 }
    }

    /// Once a claimed range was published.
    pub open spec fn told(self, k: RangeName, fetched: Option<Seq<u8>>) -> RangeState {
        RangeState {
            ranges: published(self.ranges, k, fetched, self.tick + 1),
            tick: if fetched is Some {
                self.tick + 1
            } else {
                self.tick
            },
        }
    }
}

spec fn listed(slots: Seq<(RangeKey, RangeSlot)>) -> Seq<(RangeName, RangeModel)> {
    Seq::new(slots.len(), |i: int| (slots[i].0@, slots[i].1@))
}

/// The cache of ranges.
#[derive(Debug)]
pub struct RangeCache {
    slots: Vec<(RangeKey, RangeSlot)>,
    bytes: usize,
    tick: u64,
}

pub fn copy_bytes(v: &Vec<u8>) -> (r: Vec<u8>)
    ensures
        r@ == v@,
{
    let mut r: Vec<u8> = Vec::new();
    for i in 0..v.len()
        invariant
            r@ == v@.take(i as int),
    {
        r.push(v[i]);
        assert(r@ =~= v@.take(i + 1));
    }
    assert(v@.take(v@.len() as int) =~= v@);
    r
}

fn copy_key(k: &RangeKey) -> (r: RangeKey)
    ensures
        r@ == k@,
{
    RangeKey { url: String::from_str(k.url.as_str()), offset: k.offset, len: k.len }
}

fn same_range(a: &RangeKey, b: &RangeKey) -> (r: bool)
    ensures
        r == (a@ == b@),
{
    a.offset == b.offset && a.len == b.len && text::same_text(a.url.as_str(), b.url.as_str())
}

impl RangeCache {
    /// What is known of each range.
    pub closed spec fn ranges(&self) -> Map<RangeName, RangeModel> {
        table::map_of(listed(self.slots@))
    }

    pub closed spec fn tick(&self) -> nat {
        self.tick as nat
    }

    /// What is known of each range, and how often the cache was asked. The
    /// bytes that the cache counts are those that its ranges take up.
    pub open spec fn state(&self) -> RangeState {
        RangeState { ranges: self.ranges(), tick: self.tick() }
    }

    /// The ranges are finitely many and told apart by their use.
    pub proof fn state_is_sound(&self)
        requires
            self.wf(),
        ensures
            self.state().sound(),
    {
    }

    /// The bytes are counted right, and the ranges told apart by their use.
    pub closed spec fn wf(&self) -> bool {
        &&& table::distinct_keys(listed(self.slots@))
        &&& self.ranges().dom().finite()
        &&& self.bytes == all_held(self.ranges())
        &&& told_apart(self.ranges(), self.tick as nat)
    }

    pub fn new() -> (r: Self)
        ensures
            r.wf(),
            r.ranges() == Map::<RangeName, RangeModel>::empty(),
            r.tick() == 0,
    {
        let r = RangeCache { slots: Vec::new(), bytes: 0, tick: 0 };
        proof {
            assert(r.ranges() =~= Map::<RangeName, RangeModel>::empty());
            sums::map_total_empty::<RangeName, RangeModel>(|r: RangeModel| held(r));
        }
        r
    }

    /// The bytes that all ranges take up.
    pub fn bytes(&self) -> (n: usize)
        requires
            self.wf(),
        ensures
            n == all_held(self.ranges()),
    {
        self.bytes
    }

    fn find(&self, k: &RangeKey) -> (r: Option<usize>)
        requires
            self.wf(),
        ensures
            match r {
                Some(i) => i < self.slots@.len() && self.slots@[i as int].0@ == k@
                    && self.ranges().contains_key(k@) && self.ranges()[k@]
                    == self.slots@[i as int].1@,
                None => !self.ranges().contains_key(k@),
            },
    {
        let ghost l = listed(self.slots@);
        for i in 0..self.slots.len()
            invariant
                self.wf(),
                l == listed(self.slots@),
                forall|j: int| 0 <= j < i ==> (#[trigger] l[j]).0 != k@,
        {
            assert(l[i as int].0 == self.slots@[i as int].0@);
            if same_range(&self.slots[i].0, k) {
                proof {
                    table::slots_hold(l);
                    assert(self.ranges()[l[i as int].0] == l[i as int].1);
                }
                return Some(i);
            }
        }
        None
    }

    /// Look at a range without waiting. One that nobody holds or fetches is
    /// the caller's from now on.
    pub fn probe(&mut self, k: &RangeKey) -> (r: Probe)
        requires
            old(self).wf(),
            old(self).tick() < u64::MAX,
        ensures
            final(self).wf(),
            final(self).tick() == old(self).tick() + 1,
            final(self).ranges() == probed(old(self).ranges(), k@, old(self).tick() + 1),
            final(self).state() == old(self).state().looked(k@),
            finds(r, old(self).ranges(), k@),
    {
        let ghost m = self.ranges();
        let ghost before = self.slots@;
        let ghost l = listed(before);
        let ghost w = |r: RangeModel| held(r);
        let found: Option<usize> = self.find(k);
        self.tick = self.tick + 1;
        let tick: u64 = self.tick;
        match found {
            None => {
                self.slots.push((copy_key(k), RangeSlot::Pending));
                proof {
                    table::appended(l, k@, RangeModel::Pending);
                    assert(listed(self.slots@) =~= l.push((k@, RangeModel::Pending)));
                    sums::map_total_insert(m, w, k@, RangeModel::Pending);
                }
                Probe::Claimed
            },
            Some(i) => {
                let copied: Option<Vec<u8>> = match &self.slots[i].1 {
                    RangeSlot::Pending => None,
                    RangeSlot::Ready { bytes, .. } => Some(copy_bytes(bytes)),
                };
                match copied {
                    None => Probe::InFlight,
                    Some(copy) => {
                        let (key, slot) = self.slots.swap_remove(i);
                        let ghost mid = self.slots@;
                        assert(slot is Ready);
                        if let RangeSlot::Ready { bytes, .. } = slot {
                            let ghost now = RangeModel::Ready { bytes: bytes@, used: tick };
                            self.slots.push((key, RangeSlot::Ready { bytes, used: tick }));
                            proof {
                                let last = before.len() - 1;
                                assert(listed(self.slots@) =~= l.update(i as int, l[last]).take(
                                    last,
                                ).push((k@, now)));
                                table::swapped_in(l, listed(self.slots@), i as int, k@, now);
                                sums::map_total_insert(m, w, k@, now);
                                sums::map_total_remove(m, w, k@);
                            }
                        }
                        Probe::Ready(copy)
                    },
                }
            },
        }
    }

    /// One turn of waiting for a range: bytes that are here come back, a
    /// range that nobody holds or fetches becomes the caller's to fetch and
    /// publish, and one in flight asks for another turn.
    pub fn get_or_claim(&mut self, k: &RangeKey) -> (r: Probe)
        requires
            old(self).wf(),
            old(self).tick() < u64::MAX,
        ensures
            final(self).wf(),
            final(self).tick() == old(self).tick() + 1,
            final(self).ranges() == probed(old(self).ranges(), k@, old(self).tick() + 1),
            final(self).state() == old(self).state().looked(k@),
            finds(r, old(self).ranges(), k@),
    {
        self.probe(k)
    }

    fn find_oldest(&self) -> (r: Option<usize>)
        requires
            self.wf(),
        ensures
            match r {
                Some(i) => i < self.slots@.len() && self.slots@[i as int].1 is Ready && is_oldest(
                    self.ranges(),
                    self.slots@[i as int].0@,
                ) && oldest(self.ranges()) == self.slots@[i as int].0@,
                None => !is_oldest(self.ranges(), oldest(self.ranges())),
            },
    {
        let ghost m = self.ranges();
        let ghost l = listed(self.slots@);
        proof {
            table::slots_hold(l);
        }
        let mut best: Option<(usize, u64)> = None;
        for i in 0..self.slots.len()
            invariant
                self.wf(),
                m == self.ranges(),
                l == listed(self.slots@),
                forall|i: int|
                    0 <= i < l.len() ==> m.contains_key((#[trigger] l[i]).0) && m[l[i].0] == l[i].1,
                match best {
                    None => forall|j: int| 0 <= j < i ==> (#[trigger] l[j]).1 is Pending,
                    Some((b, used)) => {
                        &&& b < i
                        &&& l[b as int].1 is Ready
                        &&& l[b as int].1->used == used
                        &&& forall|j: int|
                            0 <= j < i && (#[trigger] l[j]).1 is Ready && j != b ==> used
                                < l[j].1->used
                    },
                },
        {
            assert(l[i as int].1 == self.slots@[i as int].1@);
            if let RangeSlot::Ready { used, .. } = &self.slots[i].1 {
                proof {
                    assert(m.contains_key(l[i as int].0));
                    if let Some((b, u)) = best {
                        assert(m.contains_key(l[b as int].0));
                        assert(l[b as int].0 != l[i as int].0);
                    }
                }
                match best {
                    None => {
                        best = Some((i, *used));
                    },
                    Some((_, u)) => {
                        if *used < u {
                            best = Some((i, *used));
                        }
                    },
                }
            }
        }
        match best {
            None => {
                proof {
                    let o = oldest(m);
                    if is_oldest(m, o) {
                        let j = choose|j: int| 0 <= j < l.len() && #[trigger] l[j].0 == o;
                        assert(l[j].0 == o);
                        assert(m[l[j].0] == l[j].1);
                    }
                }
                None
            },
            Some((b, used)) => {
                proof {
                    let k = l[b as int].0;
                    assert(is_oldest(m, k)) by {
                        assert(m.contains_key(l[b as int].0));
                        assert forall|j: RangeName|
                            #[trigger] m.contains_key(j) && m[j] is Ready && j != k implies
                            m[k]->used < m[j]->used by {
                            let p = choose|p: int| 0 <= p < l.len() && #[trigger] l[p].0 == j;
                            assert(l[p].0 == j);
                            assert(m[l[p].0] == l[p].1);
                        }
                    }
                    let o = oldest(m);
                    assert(is_oldest(m, o));
                    if o != k {
                        assert(m.contains_key(o) && m.contains_key(k));
                    }
                }
                Some(b)
            },
        }
    }

    /// Publish a claimed range: its bytes, or that they could not be had.
    /// Bytes that were not used for the longest time leave when the budget
    /// is passed.
    pub fn publish(&mut self, k: &RangeKey, fetched: Option<Vec<u8>>)
        requires
            old(self).wf(),
            old(self).tick() < u64::MAX,
            is_pending(old(self).ranges(), k@),
            fetched matches Some(b) ==> all_held(old(self).ranges()) + b@.len() <= usize::MAX,
        ensures
            final(self).wf(),
            final(self).tick() == old(self).tick() + (if fetched is Some {
                1nat
            } else {
                0
            }),
            final(self).ranges() == published(
                old(self).ranges(),
                k@,
                match fetched {
                    Some(b) => Some(b@),
                    None => None,
                },
                old(self).tick() + 1,
            ),
            final(self).state() == old(self).state().told(
                k@,
                match fetched {
                    Some(b) => Some(b@),
                    None => None,
                },
            ),
    {
        let ghost m = self.ranges();
        let ghost before = self.slots@;
        let ghost l = listed(before);
        let ghost w = |r: RangeModel| held(r);
        let found: Option<usize> = self.find(k);
        let i: usize = match found {
            Some(i) => i,
            None => {
                return;
            },
        };
        let (key, _) = self.slots.swap_remove(i);
        let ghost last = before.len() - 1;
        assert(listed(self.slots@) =~= l.update(i as int, l[last]).take(last));
        proof {
            table::taken_out(l, listed(self.slots@), i as int);
            sums::map_total_remove(m, w, k@);
        }
        match fetched {
            None => {},
            Some(bytes) => {
                self.bytes = self.bytes + bytes.len();
                self.tick = self.tick + 1;
                let used: u64 = self.tick;
                let ghost now = RangeModel::Ready { bytes: bytes@, used };
                self.slots.push((key, RangeSlot::Ready { bytes, used }));
                proof {
                    assert(listed(self.slots@) =~= l.update(i as int, l[last]).take(last).push(
                        (k@, now),
                    ));
                    table::swapped_in(l, listed(self.slots@), i as int, k@, now);
                    sums::map_total_insert(m, w, k@, now);
                }
                let ghost start = self.ranges();
                while self.bytes > RANGE_CACHE_BUDGET
                    invariant_except_break
                        trimmed(start) == trimmed(self.ranges()),
                    invariant
                        self.wf(),
                        self.tick == used,
                    ensures
                        trimmed(start) == self.ranges(),
                    decreases self.slots@.len(),
                {
                    let ghost m = self.ranges();
                    let ghost l = listed(self.slots@);
                    let n: usize = match self.find_oldest() {
                        Some(n) => n,
                        None => {
                            break;
                        },
                    };
                    let ghost last = l.len() - 1;
                    let ghost o = l[n as int].0;
                    proof {
                        table::slots_hold(l);
                        assert(m[l[n as int].0] == l[n as int].1);
                        sums::map_total_remove(m, |r: RangeModel| held(r), o);
                        assert(m.remove(o).dom() =~= m.dom().remove(o));
                    }
                    let (_, slot) = self.slots.swap_remove(n);
                    proof {
                        assert(listed(self.slots@) =~= l.update(n as int, l[last]).take(last));
                        table::taken_out(l, listed(self.slots@), n as int);
                    }
                    if let RangeSlot::Ready { bytes, .. } = slot {
                        self.bytes = self.bytes - bytes.len();
                    }
                }
            },
        }
    }
}

// Laws.

proof fn no_bytes_without_ready(m: Map<RangeName, RangeModel>)
    requires
        m.dom().finite(),
        forall|k: RangeName| #[trigger] m.contains_key(k) ==> m[k] is Pending,
    ensures
        all_held(m) == 0,
{
    let w = |r: RangeModel| held(r);
    let f = |k: RangeName| w(m[k]);
    assert forall|k: RangeName| m.dom().contains(k) implies #[trigger] f(k) == 0 by {
        assert(m.contains_key(k));
    }
    sums::no_weight(m.dom(), f);
}

proof fn some_oldest(m: Map<RangeName, RangeModel>, among: Set<RangeName>, tick: nat) -> (k:
    RangeName)
    requires
        among.finite(),
        among.len() > 0,
        told_apart(m, tick),
        forall|k: RangeName| #[trigger] among.contains(k) ==> m.contains_key(k) && m[k] is Ready,
    ensures
        among.contains(k),
        forall|j: RangeName| #[trigger] among.contains(j) && j != k ==> m[k]->used < m[j]->used,
    decreases among.len(),
{
    let c = among.choose();
    assert(among.contains(c));
    let rest = among.remove(c);
    if rest.len() == 0 {
        assert forall|j: RangeName| #[trigger] among.contains(j) && j != c implies m[c]->used
            < m[j]->used by {
            assert(rest.contains(j));
        }
        c
    } else {
        let b = some_oldest(m, rest, tick);
        assert(rest.contains(b));
        assert(m.contains_key(b) && m.contains_key(c));
        let k = if m[b]->used < m[c]->used {
            b
        } else {
            c
        };
        assert forall|j: RangeName| #[trigger] among.contains(j) && j != k implies m[k]->used
            < m[j]->used by {
            if j != c {
                assert(rest.contains(j));
            }
        }
        k
    }
}

/// Without an oldest range there is none that is here.
proof fn nothing_left(m: Map<RangeName, RangeModel>, tick: nat)
    requires
        m.dom().finite(),
        told_apart(m, tick),
        !is_oldest(m, oldest(m)),
    ensures
        all_held(m) == 0,
{
    let ready = m.dom().filter(|k: RangeName| m[k] is Ready);
    m.dom().lemma_len_filter(|k: RangeName| m[k] is Ready);
    if ready.len() > 0 {
        assert forall|k: RangeName| #[trigger] ready.contains(k) implies m.contains_key(k)
            && m[k] is Ready by {}
        let k = some_oldest(m, ready, tick);
        assert(is_oldest(m, k)) by {
            assert(ready.contains(k));
            assert forall|j: RangeName|
                #[trigger] m.contains_key(j) && m[j] is Ready && j != k implies m[k]->used
                < m[j]->used by {
                assert(ready.contains(j));
            }
        }
    } else {
        assert forall|k: RangeName| #[trigger] m.contains_key(k) implies m[k] is Pending by {
            if m[k] is Ready {
                assert(ready.contains(k));
                assert(ready =~= Set::empty());
            }
        }
        no_bytes_without_ready(m);
    }
}

/// Trimming keeps the budget, touches no fetch in flight, and changes
/// nothing of what stays.
pub proof fn the_budget_holds(m: Map<RangeName, RangeModel>, tick: nat)
    requires
        m.dom().finite(),
        told_apart(m, tick),
    ensures
        all_held(trimmed(m)) <= RANGE_CACHE_BUDGET,
        forall|k: RangeName| is_pending(m, k) ==> #[trigger] is_pending(trimmed(m), k),
        forall|k: RangeName| #[trigger]
            trimmed(m).contains_key(k) ==> m.contains_key(k) && trimmed(m)[k] == m[k],
    decreases m.dom().len(),
{
    if all_held(m) > RANGE_CACHE_BUDGET {
        if is_oldest(m, oldest(m)) {
            let o = oldest(m);
            assert(m.remove(o).dom() =~= m.dom().remove(o));
            let rest = m.remove(o);
            assert(told_apart(rest, tick)) by {
                assert forall|k: RangeName| #[trigger]
                    rest.contains_key(k) && rest[k] is Ready implies rest[k]->used <= tick by {
                    assert(m.contains_key(k));
                }
                assert forall|j: RangeName, k: RangeName|
                    #[trigger] rest.contains_key(j) && #[trigger] rest.contains_key(k)
                        && rest[j] is Ready && rest[k] is Ready && j != k implies rest[j]->used
                    != rest[k]->used by {
                    assert(m.contains_key(j) && m.contains_key(k));
                }
            }
            the_budget_holds(rest, tick);
            assert forall|k: RangeName| is_pending(m, k) implies #[trigger] is_pending(
                trimmed(m),
                k,
            ) by {
                assert(is_pending(rest, k));
            }
        } else {
            nothing_left(m, tick);
        }
    }
}

/// A range published within the budget is there for the next caller.
pub proof fn a_published_range_is_ready(
    m: Map<RangeName, RangeModel>,
    k: RangeName,
    bytes: Seq<u8>,
    used: u64,
)
    requires
        m.dom().finite(),
        m.contains_key(k),
        m[k] == (RangeModel::Ready { bytes, used }),
        bytes.len() <= RANGE_CACHE_BUDGET,
        forall|j: RangeName|
            #[trigger] m.contains_key(j) && m[j] is Ready && j != k ==> m[j]->used < used,
    ensures
        trimmed(m).contains_key(k),
        trimmed(m)[k] == m[k],
    decreases m.dom().len(),
{
    if all_held(m) > RANGE_CACHE_BUDGET && is_oldest(m, oldest(m)) {
        let o = oldest(m);
        if o == k {
            let rest = m.remove(k);
            sums::map_total_remove(m, |r: RangeModel| held(r), k);
            assert forall|j: RangeName| #[trigger] rest.contains_key(j) implies rest[j] is Pending by {
                assert(m.contains_key(j));
            }
            assert(rest.dom() =~= m.dom().remove(k));
            no_bytes_without_ready(rest);
            assert(false);
        }
        assert(m.remove(o).dom() =~= m.dom().remove(o));
        assert forall|j: RangeName| #[trigger]
            m.remove(o).contains_key(j) && m.remove(o)[j] is Ready && j != k implies m.remove(
            o,
        )[j]->used < used by {
            assert(m.contains_key(j));
        }
        a_published_range_is_ready(m.remove(o), k, bytes, used);
    }
}

/// A range that one caller claimed is in flight for every other, until it
/// is published.
pub proof fn a_claim_is_held(
    m: Map<RangeName, RangeModel>,
    k: RangeName,
    other: RangeName,
    tick: nat,
    later: nat,
)
    requires
        !m.contains_key(k),
    ensures
        is_pending(probed(m, k, tick), k),
        is_pending(probed(probed(m, k, tick), other, later), k),
        forall|p: Probe| finds(p, probed(m, k, tick), k) ==> p is InFlight,
{
}

/// A fetch that failed leaves the range for the next caller to claim.
pub proof fn a_failed_fetch_is_taken_over(m: Map<RangeName, RangeModel>, k: RangeName, tick: nat)
    requires
        is_pending(m, k),
    ensures
        forall|p: Probe| finds(p, published(m, k, None, tick), k) ==> p is Claimed,
{
}

/// A call on the cache.
pub enum RangeCall {
    Look(RangeName),
    Publish(RangeName, Option<Seq<u8>>),
}

/// The cache after the first `n` of some calls.
pub open spec fn after_calls(s: RangeState, calls: Seq<RangeCall>, n: int) -> RangeState
    decreases n,
{
    if n <= 0 {
        s
    } else {
        let before = after_calls(s, calls, n - 1);
        match calls[n - 1] {
            RangeCall::Look(k) => before.looked(k),
            RangeCall::Publish(k, fetched) => before.told(k, fetched),
        }
    }
}

/// Only ranges that are claimed are published.
pub open spec fn only_claims_are_published(s: RangeState, calls: Seq<RangeCall>) -> bool {
    forall|i: int|
        0 <= i < calls.len() && (#[trigger] calls[i]) is Publish ==> is_pending(
            after_calls(s, calls, i).ranges,
            calls[i]->Publish_0,
        )
}

proof fn a_look_stays_sound(s: RangeState, k: RangeName)
    requires
        s.sound(),
        s.tick < u64::MAX,
    ensures
        s.looked(k).sound(),
        s.looked(k).ranges.contains_key(k),
        forall|j: RangeName|
            j != k ==> (#[trigger] s.looked(k).ranges.contains_key(j) == s.ranges.contains_key(j))
                && (s.ranges.contains_key(j) ==> s.looked(k).ranges[j] == s.ranges[j]),
{
    let m = s.ranges;
    let r = s.looked(k).ranges;
    assert(r.dom() =~= m.dom().insert(k));
    assert forall|j: RangeName| #[trigger] r.contains_key(j) && r[j] is Ready implies r[j]->used
        <= s.tick + 1 by {
        if j != k {
            assert(m.contains_key(j));
        }
    }
    assert forall|i: RangeName, j: RangeName|
        #[trigger] r.contains_key(i) && #[trigger] r.contains_key(j) && r[i] is Ready
            && r[j] is Ready && i != j implies r[i]->used != r[j]->used by {
        if i != k {
            assert(m.contains_key(i));
        }
        if j != k {
            assert(m.contains_key(j));
        }
    }
}

proof fn parts_are_told_apart(
    m: Map<RangeName, RangeModel>,
    part: Map<RangeName, RangeModel>,
    tick: nat,
    later: nat,
)
    requires
        told_apart(m, tick),
        tick <= later,
        forall|k: RangeName| #[trigger] part.contains_key(k) ==> m.contains_key(k) && part[k] == m[k],
    ensures
        told_apart(part, later),
{
    assert forall|k: RangeName| #[trigger] part.contains_key(k) && part[k] is Ready implies part[k]->used
        <= later by {
        assert(m.contains_key(k));
    }
    assert forall|j: RangeName, k: RangeName|
        #[trigger] part.contains_key(j) && #[trigger] part.contains_key(k) && part[j] is Ready
            && part[k] is Ready && j != k implies part[j]->used != part[k]->used by {
        assert(m.contains_key(j) && m.contains_key(k));
    }
}

proof fn trimming_is_finite(m: Map<RangeName, RangeModel>)
    requires
        m.dom().finite(),
    ensures
        trimmed(m).dom().finite(),
    decreases m.dom().len(),
{
    if all_held(m) > RANGE_CACHE_BUDGET && is_oldest(m, oldest(m)) {
        let o = oldest(m);
        assert(m.remove(o).dom() =~= m.dom().remove(o));
        trimming_is_finite(m.remove(o));
    }
}

proof fn publishing_stays_sound(s: RangeState, k: RangeName, fetched: Option<Seq<u8>>)
    requires
        s.sound(),
        s.tick < u64::MAX,
        is_pending(s.ranges, k),
    ensures
        s.told(k, fetched).sound(),
        forall|j: RangeName|
            j != k && is_pending(s.ranges, j) ==> #[trigger] is_pending(
                s.told(k, fetched).ranges,
                j,
            ),
        forall|j: RangeName|
            j != k && #[trigger] s.told(k, fetched).ranges.contains_key(j)
                ==> s.ranges.contains_key(j) && s.told(k, fetched).ranges[j] == s.ranges[j],
{
    let m = s.ranges;
    match fetched {
        None => {
            assert(m.remove(k).dom() =~= m.dom().remove(k));
            parts_are_told_apart(m, m.remove(k), s.tick, s.tick);
        },
        Some(bytes) => {
            let now = RangeModel::Ready { bytes, used: (s.tick + 1) as u64 };
            let wide = m.insert(k, now);
            assert(wide.dom() =~= m.dom().insert(k));
            assert(told_apart(wide, s.tick + 1)) by {
                assert forall|j: RangeName| #[trigger]
                    wide.contains_key(j) && wide[j] is Ready implies wide[j]->used <= s.tick + 1 by {
                    if j != k {
                        assert(m.contains_key(j));
                    }
                }
                assert forall|i: RangeName, j: RangeName|
                    #[trigger] wide.contains_key(i) && #[trigger] wide.contains_key(j)
                        && wide[i] is Ready && wide[j] is Ready && i != j implies wide[i]->used
                    != wide[j]->used by {
                    if i != k {
                        assert(m.contains_key(i));
                    }
                    if j != k {
                        assert(m.contains_key(j));
                    }
                }
            }
            the_budget_holds(wide, s.tick + 1);
            trimming_is_finite(wide);
            parts_are_told_apart(wide, trimmed(wide), s.tick + 1, s.tick + 1);
            assert forall|j: RangeName| j != k && is_pending(m, j) implies #[trigger] is_pending(
                trimmed(wide),
                j,
            ) by {
                assert(is_pending(wide, j));
            }
        },
    }
}

/// Whatever calls came, the ranges are finitely many and told apart.
pub proof fn calls_stay_sound(s: RangeState, calls: Seq<RangeCall>, n: int)
    requires
        s.sound(),
        s.tick + calls.len() <= u64::MAX,
        only_claims_are_published(s, calls),
        0 <= n <= calls.len(),
    ensures
        after_calls(s, calls, n).sound(),
        after_calls(s, calls, n).tick <= s.tick + n,
    decreases n,
{
    if n > 0 {
        calls_stay_sound(s, calls, n - 1);
        let before = after_calls(s, calls, n - 1);
        match calls[n - 1] {
            RangeCall::Look(k) => a_look_stays_sound(before, k),
            RangeCall::Publish(k, fetched) => {
                assert(calls[n - 1] is Publish);
                publishing_stays_sound(before, k, fetched);
            },
        }
    }
}

/// One of the first `n` calls looks at a range.
pub open spec fn looked_at(calls: Seq<RangeCall>, k: RangeName, n: int) -> bool {
    exists|i: int| 0 <= i < n && #[trigger] calls[i] == RangeCall::Look(k)
}

/// Of all looks at a range that nobody holds or fetches, whatever else is
/// looked at or published meanwhile, the first claims it, and every other
/// finds it in flight, until it is published.
pub proof fn exactly_one_look_claims(s: RangeState, calls: Seq<RangeCall>, k: RangeName, n: int)
    requires
        s.sound(),
        s.tick + calls.len() <= u64::MAX,
        only_claims_are_published(s, calls),
        !s.ranges.contains_key(k),
        0 <= n <= calls.len(),
        forall|i: int|
            0 <= i < n && (#[trigger] calls[i]) is Publish ==> calls[i]->Publish_0 != k,
    ensures
        ({
            let m = after_calls(s, calls, n).ranges;
            &&& looked_at(calls, k, n) ==> is_pending(m, k)
            &&& !looked_at(calls, k, n) ==> !m.contains_key(k)
            &&& forall|p: Probe| #[trigger]
                finds(p, m, k) ==> if looked_at(calls, k, n) {
                    p is InFlight
                } else {
                    p is Claimed
                }
        }),
    decreases n,
{
    if n > 0 {
        exactly_one_look_claims(s, calls, k, n - 1);
        calls_stay_sound(s, calls, n - 1);
        let before = after_calls(s, calls, n - 1);
        let last = calls[n - 1];
        match last {
            RangeCall::Look(j) => {
                a_look_stays_sound(before, j);
            },
            RangeCall::Publish(j, fetched) => {
                assert(calls[n - 1] is Publish);
                publishing_stays_sound(before, j, fetched);
            },
        }
        let after = after_calls(s, calls, n).ranges;
        if looked_at(calls, k, n - 1) {
            let i = choose|i: int| 0 <= i < n - 1 && #[trigger] calls[i] == RangeCall::Look(k);
            assert(calls[i] == RangeCall::Look(k));
            assert(looked_at(calls, k, n));
            assert(is_pending(after, k));
        } else if last == RangeCall::Look(k) {
            assert(calls[n - 1] == RangeCall::Look(k));
            assert(looked_at(calls, k, n));
        } else {
            assert(!looked_at(calls, k, n));
            assert(!after.contains_key(k));
        }
    }
}

/// Bytes that were published are what every look finds, for as long as the
/// range has not left.
pub proof fn published_bytes_are_found(s: RangeState, calls: Seq<RangeCall>, k: RangeName, n: int)
    requires
        s.sound(),
        s.tick + calls.len() <= u64::MAX,
        only_claims_are_published(s, calls),
        is_ready(s.ranges, k),
        0 <= n <= calls.len(),
        forall|i: int| 0 <= i <= n ==> #[trigger] after_calls(s, calls, i).ranges.contains_key(k),
    ensures
        is_ready(after_calls(s, calls, n).ranges, k),
        after_calls(s, calls, n).ranges[k]->bytes == s.ranges[k]->bytes,
        forall|p: Probe| #[trigger]
            finds(p, after_calls(s, calls, n).ranges, k) ==> (p matches Probe::Ready(b) && b@
                == s.ranges[k]->bytes),
    decreases n,
{
    if n > 0 {
        published_bytes_are_found(s, calls, k, n - 1);
        calls_stay_sound(s, calls, n - 1);
        let before = after_calls(s, calls, n - 1);
        assert(after_calls(s, calls, n).ranges.contains_key(k));
        match calls[n - 1] {
            RangeCall::Look(j) => a_look_stays_sound(before, j),
            RangeCall::Publish(j, fetched) => {
                assert(calls[n - 1] is Publish);
                publishing_stays_sound(before, j, fetched);
            },
        }
    }
}

/// A look at a range adds, drops and changes nothing of any other.
pub proof fn a_look_touches_one_range(s: RangeState, k: RangeName, other: RangeName)
    requires
        k != other,
    ensures
        s.looked(k).ranges.contains_key(other) == s.ranges.contains_key(other),
        s.ranges.contains_key(other) ==> s.looked(k).ranges[other] == s.ranges[other],
{
}

/// The ranges that leave are those that have not been used for the longest
/// time: none that stays was used before one that leaves. Nothing leaves
/// within the budget.
pub proof fn the_longest_unused_range_leaves_first(
    m: Map<RangeName, RangeModel>,
    a: RangeName,
    b: RangeName,
)
    requires
        m.dom().finite(),
    ensures
        trimmed(m).contains_key(b) ==> m.contains_key(b) && trimmed(m)[b] == m[b],
        m.contains_key(a) && !trimmed(m).contains_key(a) ==> m[a] is Ready,
        m.contains_key(a) && !trimmed(m).contains_key(a) && trimmed(m).contains_key(b)
            && m[b] is Ready ==> m[a]->used < m[b]->used,
        all_held(m) <= RANGE_CACHE_BUDGET ==> trimmed(m) == m,
    decreases m.dom().len(),
{
    if all_held(m) > RANGE_CACHE_BUDGET && is_oldest(m, oldest(m)) {
        let o = oldest(m);
        let rest = m.remove(o);
        assert(rest.dom() =~= m.dom().remove(o));
        the_longest_unused_range_leaves_first(rest, a, b);
        if a == o && trimmed(m).contains_key(b) && m[b] is Ready {
            assert(rest.contains_key(b));
            assert(m.contains_key(b));
        }
    }
}

} // verus!
