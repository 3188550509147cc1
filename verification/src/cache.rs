//! The chunk cache of an engine, which is also the table that lets
//! concurrent pulls of one chunk share a computation.
//!
//! An entry is ready in memory, spilled to disk, or pending: someone is
//! computing or loading it. Whoever gives up a pending entry takes it out
//! and wakes the waiters, one of which takes over.

use vstd::prelude::*;

use crate::sums;
use crate::table::{Table, TableKey};
use crate::window::{Bbox, ChunkKey};

verus! {

/// A chunk of a node.
#[derive(Clone, Copy, Debug, PartialEq, Eq, Hash, Structural)]
pub struct Slot {
    pub node: usize,
    pub key: ChunkKey,
}

impl TableKey for Slot {
    fn same_key(&self, other: &Self) -> (r: bool) {
        *self == *other
    }
}

impl Slot {
    /// The order of slots: by node, then by key.
    pub open spec fn before(self, other: Slot) -> bool {
        self.node < other.node || (self.node == other.node && self.key.before(other.key))
    }

    fn precedes(&self, other: &Slot) -> (r: bool)
        ensures
            r == self.before(*other),
    {
        self.node < other.node || (self.node == other.node && self.key.precedes(&other.key))
    }
}

/// An entry of the cache: `C` is a chunk in memory, `W` someone who waits
/// for one.
#[derive(Debug)]
pub enum Entry<C, W> {
    /// `spilled` says that a copy lies on disk too.
    Ready { chunk: C, bytes: usize, last_used: u64, spilled: bool },
    Spilled { bytes: usize, last_used: u64 },
    Pending { waiters: Vec<W> },
}

/// What an [`Entry`] is.
#[verifier::ext_equal]
#[allow(inconsistent_fields)]
pub enum EntryModel<C, W> {
    Ready { chunk: C, bytes: usize, last_used: u64, spilled: bool },
    Spilled { bytes: usize, last_used: u64 },
    Pending { waiters: Seq<W> },
}

impl<C, W> View for Entry<C, W> {
    type V = EntryModel<C, W>;

    open spec fn view(&self) -> EntryModel<C, W> {
        match *self {
            Entry::Ready { chunk, bytes, last_used, spilled } => EntryModel::Ready {
                chunk,
                bytes,
                last_used,
                spilled,
            },
            Entry::Spilled { bytes, last_used } => EntryModel::Spilled { bytes, last_used },
            Entry::Pending { waiters } => EntryModel::Pending { waiters: waiters@ },
        }
    }
}

/// The state of a cache.
#[verifier::ext_equal]
pub struct CacheModel<C, W> {
    pub entries: Map<Slot, EntryModel<C, W>>,
    /// What is accounted to chunks in memory.
    pub bytes: nat,
    /// What is accounted to chunks on disk alone.
    pub disk_bytes: nat,
    pub tick: nat,
}

/// The memory that an entry takes.
pub open spec fn memory_of<C, W>(e: EntryModel<C, W>) -> nat {
    match e {
        EntryModel::Ready { bytes, .. } => bytes as nat,
        _ => 0,
    }
}

/// The disk that an entry alone takes.
pub open spec fn disk_of<C, W>(e: EntryModel<C, W>) -> nat {
    match e {
        EntryModel::Spilled { bytes, .. } => bytes as nat,
        _ => 0,
    }
}

/// What is in memory.
pub open spec fn in_memory<C, W>(entries: Map<Slot, EntryModel<C, W>>) -> nat {
    sums::map_total(entries, |e: EntryModel<C, W>| memory_of(e))
}

/// What is on disk alone.
pub open spec fn on_disk<C, W>(entries: Map<Slot, EntryModel<C, W>>) -> nat {
    sums::map_total(entries, |e: EntryModel<C, W>| disk_of(e))
}

/// The smaller of zero and a difference is zero.
pub open spec fn less(total: nat, bytes: usize) -> nat {
    if total >= bytes {
        (total - bytes) as nat
    } else {
        0
    }
}

/// What a request has to do next.
#[derive(Clone, Copy, Debug, PartialEq, Eq, Structural)]
pub enum Action {
    /// The chunk is in memory.
    Hit,
    /// Someone else is at it; the waiter was registered.
    Wait,
    /// Read the chunk from disk.
    Load,
    /// Compute the chunk.
    Compute,
}

/// What follows on a look at the disk for a chunk.
#[derive(Debug)]
pub enum AfterLoad<C> {
    /// The chunk is stored, with its copy on disk.
    Store(C),
    /// The copy is deleted, and the chunk computed as if there had been none.
    Recompute,
}

/// What follows on a look at the disk for a chunk: what can be read is
/// stored, and a copy that cannot is worth nothing.
pub fn after_load<C>(read: Option<C>) -> (r: AfterLoad<C>)
    ensures
        r == (match read {
            Some(c) => AfterLoad::Store(c),
            None => AfterLoad::Recompute,
        }),
{
    match read {
        Some(c) => AfterLoad::Store(c),
        None => AfterLoad::Recompute,
    }
}

/// When an entry was last used, of those that can leave.
pub open spec fn age_of<C, W>(e: EntryModel<C, W>) -> u64 {
    match e {
        EntryModel::Ready { last_used, .. } => last_used,
        EntryModel::Spilled { last_used, .. } => last_used,
        EntryModel::Pending { .. } => 0,
    }
}

/// An entry leaves before another: used longer ago, or first in order.
pub open spec fn leaves_before<C, W>(
    entries: Map<Slot, EntryModel<C, W>>,
    a: Slot,
    b: Slot,
) -> bool {
    age_of(entries[a]) < age_of(entries[b]) || (age_of(entries[a]) == age_of(entries[b])
        && a.before(b))
}

/// The entry can leave memory, or the disk.
pub open spec fn can_leave<C, W>(e: EntryModel<C, W>, memory: bool) -> bool {
    if memory {
        e is Ready
    } else {
        e is Spilled
    }
}

/// The entry that leaves first.
pub open spec fn is_oldest<C, W>(
    entries: Map<Slot, EntryModel<C, W>>,
    memory: bool,
    k: Slot,
) -> bool {
    &&& entries.contains_key(k)
    &&& can_leave(entries[k], memory)
    &&& forall|j: Slot|
        #[trigger] entries.contains_key(j) && can_leave(entries[j], memory) && j != k
            ==> leaves_before(entries, k, j)
}

pub open spec fn oldest<C, W>(entries: Map<Slot, EntryModel<C, W>>, memory: bool) -> Option<Slot> {
    if exists|k: Slot| is_oldest(entries, memory, k) {
        Some(choose|k: Slot| is_oldest(entries, memory, k))
    } else {
        None
    }
}

/// The slots that can leave.
pub open spec fn leaving<C, W>(entries: Map<Slot, EntryModel<C, W>>, memory: bool) -> Set<Slot> {
    entries.dom().filter(|k: Slot| can_leave(entries[k], memory))
}

impl<C, W> CacheModel<C, W> {
    /// The accounts cover what the entries take.
    pub open spec fn wf(self) -> bool {
        &&& self.entries.dom().finite()
        &&& in_memory(self.entries) <= self.bytes
        &&& on_disk(self.entries) <= self.disk_bytes
    }

    pub open spec fn empty() -> CacheModel<C, W> {
        CacheModel { entries: Map::empty(), bytes: 0, disk_bytes: 0, tick: 0 }
    }

    /// A request for a chunk.
    pub open spec fn requested(self, slot: Slot, waiter: W) -> (CacheModel<C, W>, Action) {
        let tick = self.tick + 1;
        if !self.entries.contains_key(slot) {
            (
                CacheModel {
                    entries: self.entries.insert(
                        slot,
                        EntryModel::Pending { waiters: Seq::empty() },
                    ),
                    tick,
                    ..self
                },
                Action::Compute,
            )
        } else {
            match self.entries[slot] {
                EntryModel::Ready { chunk, bytes, spilled, .. } => (
                    CacheModel {
                        entries: self.entries.insert(
                            slot,
                            EntryModel::Ready { chunk, bytes, last_used: tick as u64, spilled },
                        ),
                        tick,
                        ..self
                    },
                    Action::Hit,
                ),
                EntryModel::Pending { waiters } => (
                    CacheModel {
                        entries: self.entries.insert(
                            slot,
                            EntryModel::Pending { waiters: waiters.push(waiter) },
                        ),
                        tick,
                        ..self
                    },
                    Action::Wait,
                ),
                EntryModel::Spilled { bytes, .. } => (
                    CacheModel {
                        entries: self.entries.insert(
                            slot,
                            EntryModel::Pending { waiters: Seq::empty() },
                        ),
                        disk_bytes: less(self.disk_bytes, bytes),
                        tick,
                        ..self
                    },
                    Action::Load,
                ),
            }
        }
    }

    /// One chunk leaves memory: to disk where a copy lies there and the
    /// cache keeps one, else for good. A copy nobody keeps is to be deleted.
    pub open spec fn demoted(self, k: Slot, keeps_disk: bool) -> (CacheModel<C, W>, Seq<Slot>) {
        match self.entries[k] {
            EntryModel::Ready { bytes, last_used, spilled, .. } => if spilled && keeps_disk {
                (
                    CacheModel {
                        entries: self.entries.insert(k, EntryModel::Spilled { bytes, last_used }),
                        bytes: less(self.bytes, bytes),
                        disk_bytes: self.disk_bytes + bytes as nat,
                        ..self
                    },
                    Seq::empty(),
                )
            } else {
                (
                    CacheModel {
                        entries: self.entries.remove(k),
                        bytes: less(self.bytes, bytes),
                        ..self
                    },
                    if spilled {
                        seq![k]
                    } else {
                        Seq::empty()
                    },
                )
            },
            _ => (self, Seq::empty()),
        }
    }

    /// Chunks leave memory, oldest first, until the account is within
    /// budget.
    pub open spec fn evicted(self, budget: nat, keeps_disk: bool) -> (CacheModel<C, W>, Seq<Slot>)
        decreases leaving(self.entries, true).len(),
        when self.entries.dom().finite()
        via Self::evicted_decreases
    {
        if self.bytes <= budget {
            (self, Seq::empty())
        } else {
            match oldest(self.entries, true) {
                None => (self, Seq::empty()),
                Some(k) => {
                    let (next, gone) = self.demoted(k, keeps_disk);
                    let (last, more) = next.evicted(budget, keeps_disk);
                    (last, gone + more)
                },
            }
        }
    }

    #[via_fn]
    proof fn evicted_decreases(self, budget: nat, keeps_disk: bool) {
        if self.bytes > budget {
            if let Some(k) = oldest(self.entries, true) {
                one_leaves(self, k, keeps_disk);
            }
        }
    }

    /// One chunk leaves the disk.
    pub open spec fn dropped(self, k: Slot) -> CacheModel<C, W> {
        match self.entries[k] {
            EntryModel::Spilled { bytes, .. } => CacheModel {
                entries: self.entries.remove(k),
                disk_bytes: less(self.disk_bytes, bytes),
                ..self
            },
            _ => self,
        }
    }

    /// Chunks leave the disk, oldest first, until the account is within
    /// budget.
    pub open spec fn disk_evicted(self, budget: nat) -> (CacheModel<C, W>, Seq<Slot>)
        decreases leaving(self.entries, false).len(),
        when self.entries.dom().finite()
        via Self::disk_evicted_decreases
    {
        if self.disk_bytes <= budget {
            (self, Seq::empty())
        } else {
            match oldest(self.entries, false) {
                None => (self, Seq::empty()),
                Some(k) => {
                    let (last, more) = self.dropped(k).disk_evicted(budget);
                    (last, seq![k] + more)
                },
            }
        }
    }

    #[via_fn]
    proof fn disk_evicted_decreases(self, budget: nat) {
        if self.disk_bytes > budget {
            if let Some(k) = oldest(self.entries, false) {
                one_is_dropped(self, k);
            }
        }
    }

    /// Both budgets enforced, and the disk copies to delete.
    pub open spec fn within(
        self,
        budget: usize,
        disk_budget: Option<usize>,
    ) -> (CacheModel<C, W>, Seq<Slot>) {
        let (next, gone) = self.evicted(budget as nat, disk_budget is Some);
        match disk_budget {
            None => (next, gone),
            Some(d) => {
                let (last, more) = next.disk_evicted(d as nat);
                (last, gone + more)
            },
        }
    }

    /// A chunk came out of a computation or off the disk.
    pub open spec fn stored(
        self,
        slot: Slot,
        chunk: C,
        bytes: usize,
        spilled: bool,
    ) -> CacheModel<C, W> {
        CacheModel {
            entries: self.entries.insert(
                slot,
                EntryModel::Ready { chunk, bytes, last_used: (self.tick + 1) as u64, spilled },
            ),
            bytes: self.bytes + bytes as nat,
            tick: self.tick + 1,
            ..self
        }
    }

    /// Who waits for a chunk.
    pub open spec fn waiting(self, slot: Slot) -> Seq<W> {
        if self.entries.contains_key(slot) {
            match self.entries[slot] {
                EntryModel::Pending { waiters } => waiters,
                _ => Seq::empty(),
            }
        } else {
            Seq::empty()
        }
    }

    /// A copy of a chunk now lies on disk.
    pub open spec fn marked(self, slot: Slot) -> CacheModel<C, W> {
        if self.entries.contains_key(slot) {
            match self.entries[slot] {
                EntryModel::Ready { chunk, bytes, last_used, .. } => CacheModel {
                    entries: self.entries.insert(
                        slot,
                        EntryModel::Ready { chunk, bytes, last_used, spilled: true },
                    ),
                    ..self
                },
                _ => self,
            }
        } else {
            self
        }
    }

    /// Whoever was at a chunk gave up.
    pub open spec fn cancelled(self, slot: Slot) -> CacheModel<C, W> {
        CacheModel { entries: self.entries.remove(slot), ..self }
    }
}

pub proof fn one_leaves<C, W>(s: CacheModel<C, W>, k: Slot, keeps_disk: bool)
    requires
        s.entries.dom().finite(),
        s.entries.contains_key(k),
        s.entries[k] is Ready,
    ensures
        s.demoted(k, keeps_disk).0.entries.dom().finite(),
        leaving(s.demoted(k, keeps_disk).0.entries, true).len() < leaving(s.entries, true).len(),
        leaving(s.demoted(k, keeps_disk).0.entries, true) == leaving(s.entries, true).remove(k),
{
    let before = leaving(s.entries, true);
    let after = leaving(s.demoted(k, keeps_disk).0.entries, true);
    assert(after =~= before.remove(k));
    assert(before.finite()) by {
        vstd::set_lib::lemma_len_subset(before, s.entries.dom());
    }
    assert(before.contains(k));
}

pub proof fn one_is_dropped<C, W>(s: CacheModel<C, W>, k: Slot)
    requires
        s.entries.dom().finite(),
        s.entries.contains_key(k),
        s.entries[k] is Spilled,
    ensures
        s.dropped(k).entries.dom().finite(),
        leaving(s.dropped(k).entries, false).len() < leaving(s.entries, false).len(),
{
    let before = leaving(s.entries, false);
    let after = leaving(s.dropped(k).entries, false);
    assert(after =~= before.remove(k));
    assert(before.finite()) by {
        vstd::set_lib::lemma_len_subset(before, s.entries.dom());
    }
    assert(before.contains(k));
}

/// At most one entry is the oldest.
proof fn oldest_is_unique<C, W>(
    entries: Map<Slot, EntryModel<C, W>>,
    memory: bool,
    a: Slot,
    b: Slot,
)
    requires
        is_oldest(entries, memory, a),
        is_oldest(entries, memory, b),
    ensures
        a == b,
{
    if a != b {
        assert(entries.contains_key(a) && entries.contains_key(b));
        assert(leaves_before(entries, a, b));
        assert(leaves_before(entries, b, a));
        crate::window::keys_are_ordered(a.key, b.key, a.key);
    }
}

/// What a table of entries is.
pub open spec fn entry_models<C, W>(m: Map<Slot, Entry<C, W>>) -> Map<Slot, EntryModel<C, W>> {
    Map::new(|k: Slot| m.contains_key(k), |k: Slot| m[k]@)
}

/// The chunk cache of an engine.
#[derive(Debug)]
pub struct ChunkCache<C, W> {
    entries: Table<Slot, Entry<C, W>>,
    bytes: usize,
    disk_bytes: usize,
    tick: u64,
}

impl<C, W> View for ChunkCache<C, W> {
    type V = CacheModel<C, W>;

    closed spec fn view(&self) -> CacheModel<C, W> {
        CacheModel {
            entries: entry_models(self.entries@),
            bytes: self.bytes as nat,
            disk_bytes: self.disk_bytes as nat,
            tick: self.tick as nat,
        }
    }
}

/// Take bytes out of an account, which never falls below zero.
pub fn state_bytes_sub(total: &mut usize, bytes: usize)
    ensures
        *final(total) == less(*old(total) as nat, bytes),
{
    *total = total.saturating_sub(bytes);
}

proof fn entry_inserted<C, W>(m: Map<Slot, Entry<C, W>>, k: Slot, e: Entry<C, W>)
    ensures
        entry_models(m.insert(k, e)) == entry_models(m).insert(k, e@),
{
    assert(entry_models(m.insert(k, e)) =~= entry_models(m).insert(k, e@));
}

proof fn entry_removed<C, W>(m: Map<Slot, Entry<C, W>>, k: Slot)
    ensures
        entry_models(m.remove(k)) == entry_models(m).remove(k),
{
    assert(entry_models(m.remove(k)) =~= entry_models(m).remove(k));
}

/// Replacing an entry moves the accounts by its share.
pub proof fn shares_move<C, W>(m: Map<Slot, EntryModel<C, W>>, k: Slot, e: EntryModel<C, W>)
    requires
        m.dom().finite(),
    ensures
        m.insert(k, e).dom().finite(),
        m.remove(k).dom().finite(),
        in_memory(m.insert(k, e)) == memory_of(e) + in_memory(m.remove(k)),
        on_disk(m.insert(k, e)) == disk_of(e) + on_disk(m.remove(k)),
        m.contains_key(k) ==> in_memory(m) == memory_of(m[k]) + in_memory(m.remove(k)),
        m.contains_key(k) ==> on_disk(m) == disk_of(m[k]) + on_disk(m.remove(k)),
        !m.contains_key(k) ==> in_memory(m) == in_memory(m.remove(k)),
        !m.contains_key(k) ==> on_disk(m) == on_disk(m.remove(k)),
{
    let f = |e: EntryModel<C, W>| memory_of(e);
    let g = |e: EntryModel<C, W>| disk_of(e);
    sums::map_total_insert(m, f, k, e);
    sums::map_total_insert(m, g, k, e);
    if m.contains_key(k) {
        sums::map_total_remove(m, f, k);
        sums::map_total_remove(m, g, k);
    } else {
        assert(m.remove(k) =~= m);
    }
}

impl<C, W> ChunkCache<C, W> {
    /// The accounts cover what the entries take.
    pub closed spec fn wf(&self) -> bool {
        self.entries.wf() && self@.wf()
    }

    pub fn new() -> (r: Self)
        ensures
            r.wf(),
            r@ == CacheModel::<C, W>::empty(),
    {
        let r = ChunkCache { entries: Table::new(), bytes: 0, disk_bytes: 0, tick: 0 };
        proof {
            assert(r@ =~= CacheModel::<C, W>::empty());
            assert(Map::<Slot, EntryModel<C, W>>::empty().dom() =~= Set::empty());
        }
        r
    }

    /// A well-formed cache has a well-formed state.
    pub proof fn state_is_sound(&self)
        requires
            self.wf(),
        ensures
            self@.wf(),
    {
    }

    /// The chunk at a slot, where it is in memory.
    pub fn ready(&self, slot: &Slot) -> (r: Option<&C>)
        requires
            self.wf(),
        ensures
            match r {
                Some(c) => self@.entries.contains_key(*slot) && self@.entries[*slot] is Ready
                    && self@.entries[*slot]->chunk == *c,
                None => !(self@.entries.contains_key(*slot) && self@.entries[*slot] is Ready),
            },
    {
        match self.entries.get(slot) {
            Some(Entry::Ready { chunk, bytes: _, last_used: _, spilled: _ }) => Some(chunk),
            _ => None,
        }
    }

    /// Ask for a chunk. Where someone else is at it, the waiter is
    /// registered; otherwise the slot is taken for whoever asked.
    pub fn request(&mut self, slot: Slot, waiter: W) -> (r: Action)
        requires
            old(self).wf(),
            old(self)@.tick < u64::MAX,
        ensures
            final(self).wf(),
            (final(self)@, r) == old(self)@.requested(slot, waiter),
    {
        let ghost before = self@;
        let ghost m = self.entries@;
        self.tick = self.tick + 1;
        let tick: u64 = self.tick;
        let r = match self.entries.remove(&slot) {
            Some(Entry::Ready { chunk, bytes, last_used: _, spilled }) => {
                self.entries.insert(slot, Entry::Ready { chunk, bytes, last_used: tick, spilled });
                Action::Hit
            },
            Some(Entry::Pending { waiters }) => {
                let mut waiters = waiters;
                waiters.push(waiter);
                self.entries.insert(slot, Entry::Pending { waiters });
                Action::Wait
            },
            Some(Entry::Spilled { bytes, last_used: _ }) => {
                self.entries.insert(slot, Entry::Pending { waiters: Vec::new() });
                state_bytes_sub(&mut self.disk_bytes, bytes);
                Action::Load
            },
            None => {
                self.entries.insert(slot, Entry::Pending { waiters: Vec::new() });
                Action::Compute
            },
        };
        proof {
            let e = self.entries@[slot];
            assert(self.entries@ =~= m.insert(slot, e));
            entry_inserted(m, slot, e);
            shares_move(before.entries, slot, e@);
            assert(self@ =~= before.requested(slot, waiter).0);
        }
        r
    }

    /// The entry that leaves memory, or the disk, first.
    fn find_oldest(&self, memory: bool) -> (r: Option<Slot>)
        requires
            self.wf(),
        ensures
            r == oldest(self@.entries, memory),
            r matches Some(k) ==> is_oldest(self@.entries, memory, k),
            r is None ==> forall|k: Slot| #[trigger] self@.entries.contains_key(k) ==> !can_leave(
                self@.entries[k],
                memory,
            ),
    {
        let ghost entries = self@.entries;
        let ghost listing = self.entries.listing();
        proof {
            self.entries.listing_is_complete();
        }
        let n: usize = self.entries.len();
        let mut best: Option<(Slot, u64)> = None;
        for i in 0..n
            invariant
                self.wf(),
                entries == self@.entries,
                listing == self.entries.listing(),
                n == listing.len(),
                forall|k: int|
                    0 <= k < listing.len() ==> entries.contains_key((#[trigger] listing[k]).0)
                        && entries[listing[k].0] == listing[k].1@,
                match best {
                    Some((b, age)) => {
                        &&& entries.contains_key(b)
                        &&& can_leave(entries[b], memory)
                        &&& age == age_of(entries[b])
                        &&& forall|k: int|
                            0 <= k < i && can_leave(
                                entries[(#[trigger] listing[k]).0],
                                memory,
                            ) && listing[k].0 != b ==> leaves_before(entries, b, listing[k].0)
                    },
                    None => forall|k: int|
                        0 <= k < i ==> !can_leave(entries[(#[trigger] listing[k]).0], memory),
                },
        {
            let slot = self.entries.key_at(i);
            let age: Option<u64> = match self.entries.value_at(i) {
                Entry::Ready { chunk: _, bytes: _, last_used, spilled: _ } => if memory {
                    Some(*last_used)
                } else {
                    None
                },
                Entry::Spilled { bytes: _, last_used } => if memory {
                    None
                } else {
                    Some(*last_used)
                },
                Entry::Pending { waiters: _ } => None,
            };
            let ghost prior = best;
            match age {
                None => {},
                Some(a) => {
                    let better: bool = match best {
                        None => true,
                        Some((b, old_age)) => a < old_age || (a == old_age && slot.precedes(&b)),
                    };
                    if better {
                        best = Some((slot, a));
                        proof {
                            if let Some((b, _)) = prior {
                                assert forall|k: int|
                                    0 <= k < i + 1 && can_leave(
                                        entries[(#[trigger] listing[k]).0],
                                        memory,
                                    ) && listing[k].0 != slot implies leaves_before(
                                    entries,
                                    slot,
                                    listing[k].0,
                                ) by {
                                    if k < i && listing[k].0 != b {
                                        assert(leaves_before(entries, b, listing[k].0));
                                        crate::window::keys_are_ordered(
                                            slot.key,
                                            b.key,
                                            listing[k].0.key,
                                        );
                                    }
                                }
                            }
                        }
                    } else {
                        proof {
                            if let Some((b, _)) = prior {
                                crate::window::keys_are_ordered(slot.key, b.key, slot.key);
                            }
                        }
                    }
                },
            }
        }
        proof {
            assert forall|j: Slot| #[trigger] entries.contains_key(j) implies exists|k: int|
                0 <= k < listing.len() && (#[trigger] listing[k]).0 == j by {
                assert(self.entries@.contains_key(j));
            }
            match best {
                Some((b, _)) => {
                    assert(is_oldest(entries, memory, b));
                    let c = choose|k: Slot| is_oldest(entries, memory, k);
                    oldest_is_unique(entries, memory, b, c);
                },
                None => {
                    if exists|k: Slot| is_oldest(entries, memory, k) {
                        let c = choose|k: Slot| is_oldest(entries, memory, k);
                        assert(entries.contains_key(c));
                    }
                },
            }
        }
        match best {
            Some((b, _)) => Some(b),
            None => None,
        }
    }

    fn evict_memory(&mut self, budget: usize, keeps_disk: bool) -> (gone: Vec<Slot>)
        requires
            old(self).wf(),
            old(self)@.bytes + old(self)@.disk_bytes <= usize::MAX,
        ensures
            final(self).wf(),
            (final(self)@, gone@) == old(self)@.evicted(budget as nat, keeps_disk),
    {
        let ghost start = self@;
        let ghost whole = self@.evicted(budget as nat, keeps_disk);
        let mut gone: Vec<Slot> = Vec::new();
        assert(gone@ + whole.1 =~= whole.1);
        loop
            invariant
                self.wf(),
                self@.bytes + self@.disk_bytes <= usize::MAX,
                whole.0 == self@.evicted(budget as nat, keeps_disk).0,
                whole.1 == gone@ + self@.evicted(budget as nat, keeps_disk).1,
            ensures
                self.wf(),
                (self@, gone@) == whole,
            decreases leaving(self@.entries, true).len(),
        {
            let ghost now = self@;
            let ghost done = gone@;
            if self.bytes <= budget {
                assert(gone@ + Seq::<Slot>::empty() =~= gone@);
                break;
            }
            let k = match self.find_oldest(true) {
                None => {
                    assert(gone@ + Seq::<Slot>::empty() =~= gone@);
                    break;
                },
                Some(k) => k,
            };
            let ghost m = self.entries@;
            proof {
                one_leaves(now, k, keeps_disk);
            }
            match self.entries.remove(&k) {
                Some(Entry::Ready { chunk: _, bytes, last_used, spilled }) => {
                    proof {
                        entry_removed(m, k);
                        shares_move(now.entries, k, EntryModel::Spilled { bytes, last_used });
                    }
                    state_bytes_sub(&mut self.bytes, bytes);
                    if spilled && keeps_disk {
                        self.entries.insert(k, Entry::Spilled { bytes, last_used });
                        self.disk_bytes = self.disk_bytes + bytes;
                        proof {
                            let e = self.entries@[k];
                            assert(self.entries@ =~= m.insert(k, e));
                            entry_inserted(m, k, e);
                        }
                    } else if spilled {
                        gone.push(k);
                    }
                    proof {
                        let (next, left) = now.demoted(k, keeps_disk);
                        assert(self@ =~= next);
                        let more = next.evicted(budget as nat, keeps_disk).1;
                        assert(gone@ =~= done + left);
                        assert(done + (left + more) =~= gone@ + more);
                    }
                },
                _ => {
                    assert(false);
                },
            }
        }
        gone
    }

    fn evict_disk(&mut self, budget: usize) -> (gone: Vec<Slot>)
        requires
            old(self).wf(),
        ensures
            final(self).wf(),
            (final(self)@, gone@) == old(self)@.disk_evicted(budget as nat),
    {
        let ghost whole = self@.disk_evicted(budget as nat);
        let mut gone: Vec<Slot> = Vec::new();
        assert(gone@ + whole.1 =~= whole.1);
        loop
            invariant
                self.wf(),
                whole.0 == self@.disk_evicted(budget as nat).0,
                whole.1 == gone@ + self@.disk_evicted(budget as nat).1,
            ensures
                self.wf(),
                (self@, gone@) == whole,
            decreases leaving(self@.entries, false).len(),
        {
            let ghost now = self@;
            let ghost done = gone@;
            if self.disk_bytes <= budget {
                assert(gone@ + Seq::<Slot>::empty() =~= gone@);
                break;
            }
            let k = match self.find_oldest(false) {
                None => {
                    assert(gone@ + Seq::<Slot>::empty() =~= gone@);
                    break;
                },
                Some(k) => k,
            };
            let ghost m = self.entries@;
            proof {
                one_is_dropped(now, k);
            }
            match self.entries.remove(&k) {
                Some(Entry::Spilled { bytes, last_used }) => {
                    proof {
                        entry_removed(m, k);
                        shares_move(now.entries, k, EntryModel::Spilled { bytes, last_used });
                    }
                    state_bytes_sub(&mut self.disk_bytes, bytes);
                    gone.push(k);
                    proof {
                        assert(self@ =~= now.dropped(k));
                        let more = now.dropped(k).disk_evicted(budget as nat).1;
                        assert(done + (seq![k] + more) =~= gone@ + more);
                    }
                },
                _ => {
                    assert(false);
                },
            }
        }
        gone
    }

    /// Let chunks leave until both accounts are within budget, oldest
    /// first. The slots that come back name the disk copies to delete.
    pub fn evict_over_budget(&mut self, budget: usize, disk_budget: Option<usize>) -> (gone: Vec<
        Slot,
    >)
        requires
            old(self).wf(),
            old(self)@.bytes + old(self)@.disk_bytes <= usize::MAX,
        ensures
            final(self).wf(),
            (final(self)@, gone@) == old(self)@.within(budget, disk_budget),
    {
        let mut gone = self.evict_memory(budget, disk_budget.is_some());
        if let Some(d) = disk_budget {
            let mut more = self.evict_disk(d);
            gone.append(&mut more);
        }
        gone
    }

    /// A chunk came out of a computation or off the disk: it enters memory,
    /// others leave, and the waiters are to be woken.
    pub fn finish_chunk(
        &mut self,
        slot: Slot,
        chunk: C,
        bytes: usize,
        spilled: bool,
        budget: usize,
        disk_budget: Option<usize>,
    ) -> (r: (Vec<W>, Vec<Slot>))
        requires
            old(self).wf(),
            old(self)@.tick < u64::MAX,
            old(self)@.bytes + bytes + old(self)@.disk_bytes <= usize::MAX,
        ensures
            final(self).wf(),
            r.0@ == old(self)@.waiting(slot),
            (final(self)@, r.1@) == old(self)@.stored(slot, chunk, bytes, spilled).within(
                budget,
                disk_budget,
            ),
    {
        let ghost before = self@;
        let ghost m = self.entries@;
        self.tick = self.tick + 1;
        let tick: u64 = self.tick;
        let woken: Vec<W> = match self.entries.insert(
            slot,
            Entry::Ready { chunk, bytes, last_used: tick, spilled },
        ) {
            Some(Entry::Pending { waiters }) => waiters,
            _ => Vec::new(),
        };
        self.bytes = self.bytes + bytes;
        proof {
            assert(woken@ =~= before.waiting(slot));
            let e = self.entries@[slot];
            entry_inserted(m, slot, e);
            shares_move(before.entries, slot, e@);
            assert(self@ =~= before.stored(slot, chunk, bytes, spilled));
        }
        let gone = self.evict_over_budget(budget, disk_budget);
        (woken, gone)
    }

    /// A copy of a chunk now lies on disk.
    pub fn mark_spilled(&mut self, slot: Slot)
        requires
            old(self).wf(),
        ensures
            final(self).wf(),
            final(self)@ == old(self)@.marked(slot),
    {
        let ghost before = self@;
        let ghost m = self.entries@;
        let is_ready: bool = self.ready(&slot).is_some();
        if is_ready {
            match self.entries.remove(&slot) {
                Some(Entry::Ready { chunk, bytes, last_used, spilled: _ }) => {
                    self.entries.insert(
                        slot,
                        Entry::Ready { chunk, bytes, last_used, spilled: true },
                    );
                    proof {
                        let e = self.entries@[slot];
                        assert(self.entries@ =~= m.insert(slot, e));
                        entry_inserted(m, slot, e);
                        shares_move(before.entries, slot, e@);
                    }
                },
                _ => {
                    assert(false);
                },
            }
        }
        assert(self@ =~= before.marked(slot));
    }

    /// Whoever was at a chunk gave up. The waiters come back to be woken.
    pub fn cancel(&mut self, slot: Slot) -> (woken: Vec<W>)
        requires
            old(self).wf(),
        ensures
            final(self).wf(),
            final(self)@ == old(self)@.cancelled(slot),
            woken@ == old(self)@.waiting(slot),
    {
        let ghost before = self@;
        let ghost m = self.entries@;
        let removed = self.entries.remove(&slot);
        proof {
            entry_removed(m, slot);
            shares_move(before.entries, slot, EntryModel::Spilled { bytes: 0, last_used: 0 });
            assert(self@ =~= before.cancelled(slot));
        }
        let woken: Vec<W> = match removed {
            Some(Entry::Pending { waiters }) => waiters,
            _ => Vec::new(),
        };
        assert(woken@ =~= before.waiting(slot));
        woken
    }
}

/// Some box of a key meets a dirty region.
pub open spec fn stale(boxes: Seq<(ChunkKey, Bbox)>, dirty: Bbox, key: ChunkKey) -> bool {
    exists|i: int| 0 <= i < boxes.len() && (#[trigger] boxes[i]).0 == key && boxes[i].1.meets(dirty)
}

/// An entry has a copy on disk that nobody keeps once the entry is gone.
pub open spec fn has_copy<C, W>(e: EntryModel<C, W>) -> bool {
    match e {
        EntryModel::Ready { spilled, .. } => spilled,
        EntryModel::Spilled { .. } => true,
        EntryModel::Pending { .. } => false,
    }
}

impl<C, W> CacheModel<C, W> {
    /// The entries of a node that a dirty region touches.
    pub open spec fn touched(
        self,
        node: usize,
        boxes: Seq<(ChunkKey, Bbox)>,
        dirty: Bbox,
        k: Slot,
    ) -> bool {
        self.entries.contains_key(k) && k.node == node && stale(boxes, dirty, k.key)
    }

    /// What stays when a dirty region touches a node.
    pub open spec fn untouched(
        self,
        node: usize,
        boxes: Seq<(ChunkKey, Bbox)>,
        dirty: Bbox,
    ) -> Map<Slot, EntryModel<C, W>> {
        Map::new(
            |k: Slot| self.entries.contains_key(k) && !self.touched(node, boxes, dirty, k),
            |k: Slot| self.entries[k],
        )
    }

    /// A dirty region takes what it touches out of the cache.
    pub open spec fn invalidated(
        self,
        node: usize,
        boxes: Seq<(ChunkKey, Bbox)>,
        dirty: Bbox,
    ) -> CacheModel<C, W> {
        let kept = self.untouched(node, boxes, dirty);
        CacheModel {
            entries: kept,
            bytes: (self.bytes - (in_memory(self.entries) - in_memory(kept))) as nat,
            disk_bytes: (self.disk_bytes - (on_disk(self.entries) - on_disk(kept))) as nat,
            tick: self.tick,
        }
    }
}

fn any_stale(boxes: &Vec<(ChunkKey, Bbox)>, dirty: &Bbox, key: &ChunkKey) -> (r: bool)
    ensures
        r == stale(boxes@, *dirty, *key),
{
    for i in 0..boxes.len()
        invariant
            forall|j: int|
                0 <= j < i ==> !((#[trigger] boxes@[j]).0 == *key && boxes@[j].1.meets(*dirty)),
    {
        if boxes[i].0 == *key && boxes[i].1.intersects(dirty) {
            assert(boxes@[i as int].0 == *key);
            return true;
        }
    }
    false
}

impl<C, W> ChunkCache<C, W> {
    /// The keys that the cache has of a node, each once.
    pub fn keys_of(&self, node: usize) -> (keys: Vec<ChunkKey>)
        requires
            self.wf(),
        ensures
            keys@.no_duplicates(),
            forall|key: ChunkKey|
                keys@.contains(key) <==> self@.entries.contains_key(Slot { node, key }),
    {
        let ghost listing = self.entries.listing();
        proof {
            self.entries.listing_is_complete();
        }
        let n: usize = self.entries.len();
        let mut keys: Vec<ChunkKey> = Vec::new();
        for i in 0..n
            invariant
                self.wf(),
                listing == self.entries.listing(),
                n == listing.len(),
                crate::table::distinct_keys(listing),
                keys@.no_duplicates(),
                forall|j: int|
                    0 <= j < keys@.len() ==> exists|k: int|
                        0 <= k < i && (#[trigger] listing[k]).0 == (Slot {
                            node,
                            key: #[trigger] keys@[j],
                        }),
                forall|k: int|
                    0 <= k < i && (#[trigger] listing[k]).0.node == node ==> keys@.contains(
                        listing[k].0.key,
                    ),
        {
            let ghost before = keys@;
            let slot = self.entries.key_at(i);
            if slot.node == node {
                keys.push(slot.key);
                proof {
                    assert(keys@[before.len() as int] == slot.key);
                    assert(!before.contains(slot.key)) by {
                        if before.contains(slot.key) {
                            let j = choose|j: int| 0 <= j < before.len() && before[j] == slot.key;
                            let k = choose|k: int|
                                0 <= k < i && (#[trigger] listing[k]).0 == (Slot {
                                    node,
                                    key: before[j],
                                });
                            assert(listing[k].0 == listing[i as int].0);
                        }
                    }
                    assert forall|k: int|
                        0 <= k < i + 1 && (#[trigger] listing[k]).0.node == node implies keys@.contains(
                        listing[k].0.key,
                    ) by {
                        if k < i {
                            let j = choose|j: int|
                                0 <= j < before.len() && before[j] == listing[k].0.key;
                            assert(keys@[j] == listing[k].0.key);
                        }
                    }
                    assert forall|j: int| 0 <= j < keys@.len() implies exists|k: int|
                        0 <= k < i + 1 && (#[trigger] listing[k]).0 == (Slot {
                            node,
                            key: #[trigger] keys@[j],
                        }) by {
                        if j < before.len() {
                            assert(keys@[j] == before[j]);
                            let k = choose|k: int|
                                0 <= k < i && (#[trigger] listing[k]).0 == (Slot {
                                    node,
                                    key: before[j],
                                });
                            assert(listing[k].0 == (Slot { node, key: keys@[j] }));
                        } else {
                            assert(listing[i as int].0 == (Slot { node, key: keys@[j] }));
                        }
                    }
                }
            }
        }
        proof {
            assert forall|key: ChunkKey| keys@.contains(key) implies self@.entries.contains_key(
                Slot { node, key },
            ) by {
                let j = choose|j: int| 0 <= j < keys@.len() && keys@[j] == key;
                let k = choose|k: int|
                    0 <= k < n && (#[trigger] listing[k]).0 == (Slot { node, key: keys@[j] });
                assert(self.entries@.contains_key(listing[k].0));
            }
            assert forall|key: ChunkKey| self@.entries.contains_key(
                Slot { node, key },
            ) implies keys@.contains(key) by {
                assert(self.entries@.contains_key(Slot { node, key }));
                let k = choose|k: int|
                    0 <= k < listing.len() && #[trigger] listing[k].0 == (Slot { node, key });
                assert(listing[k].0.node == node);
            }
        }
        keys
    }

    /// The coarsest level that the cache has of a node, the finest where it
    /// has none.
    pub fn coarsest_level(&self, node: usize) -> (level: u8)
        requires
            self.wf(),
        ensures
            forall|key: ChunkKey|
                #[trigger] self@.entries.contains_key(Slot { node, key }) ==> key.level <= level,
            level == 0 || exists|key: ChunkKey|
                #[trigger] self@.entries.contains_key(Slot { node, key }) && key.level == level,
    {
        let keys = self.keys_of(node);
        let mut level: u8 = 0;
        for i in 0..keys.len()
            invariant
                forall|j: int| 0 <= j < i ==> (#[trigger] keys@[j]).level <= level,
                level == 0 || exists|j: int| 0 <= j < i && (#[trigger] keys@[j]).level == level,
        {
            if keys[i].level > level {
                level = keys[i].level;
                assert(keys@[i as int].level == level);
            }
        }
        proof {
            assert forall|key: ChunkKey| #[trigger] self@.entries.contains_key(
                Slot { node, key },
            ) implies key.level <= level by {
                assert(keys@.contains(key));
            }
            if level != 0 {
                let j = choose|j: int| 0 <= j < keys@.len() && (#[trigger] keys@[j]).level == level;
                assert(keys@.contains(keys@[j]));
                assert(self@.entries.contains_key(Slot { node, key: keys@[j] }));
            }
        }
        level
    }

    /// Take what a dirty region touches at a node out of the cache, given
    /// the boxes of the node's chunks. The slots that come back name the
    /// disk copies to delete, in no particular order.
    pub fn invalidate(
        &mut self,
        node: usize,
        boxes: &Vec<(ChunkKey, Bbox)>,
        dirty: &Bbox,
    ) -> (gone: Vec<Slot>)
        requires
            old(self).wf(),
        ensures
            final(self).wf(),
            final(self)@ == old(self)@.invalidated(node, boxes@, *dirty),
            gone@.no_duplicates(),
            forall|k: Slot|
                gone@.contains(k) <==> old(self)@.touched(node, boxes@, *dirty, k) && has_copy(
                    old(self)@.entries[k],
                ),
    {
        let ghost start = self@;
        let keys = self.keys_of(node);
        let mut gone: Vec<Slot> = Vec::new();
        let mut freed: usize = 0;
        let mut freed_disk: usize = 0;
        let n: usize = keys.len();
        for i in 0..n
            invariant
                self.wf(),
                start.wf(),
                n == keys@.len(),
                keys@.no_duplicates(),
                forall|key: ChunkKey|
                    keys@.contains(key) <==> start.entries.contains_key(Slot { node, key }),
                self@.bytes == start.bytes,
                self@.disk_bytes == start.disk_bytes,
                self@.tick == start.tick,
                freed + in_memory(self@.entries) == in_memory(start.entries),
                freed_disk + on_disk(self@.entries) == on_disk(start.entries),
                forall|k: Slot|
                    #[trigger] self@.entries.contains_key(k) <==> start.entries.contains_key(k)
                        && !(k.node == node && keys@.take(i as int).contains(k.key) && stale(
                        boxes@,
                        *dirty,
                        k.key,
                    )),
                forall|k: Slot|
                    #[trigger] self@.entries.contains_key(k) ==> self@.entries[k]
                        == start.entries[k],
                gone@.no_duplicates(),
                forall|k: Slot|
                    #[trigger] gone@.contains(k) <==> k.node == node && keys@.take(
                        i as int,
                    ).contains(k.key)
                        && stale(boxes@, *dirty, k.key) && has_copy(start.entries[k]),
        {
            let ghost now = self@;
            let ghost done = gone@;
            let key = keys[i];
            let slot = Slot { node, key };
            proof {
                taken_next(keys@, i as int);
                assert(keys@.contains(key));
                assert(!keys@.take(i as int).contains(key)) by {
                    if keys@.take(i as int).contains(key) {
                        let j = choose|j: int|
                            0 <= j < i && keys@.take(i as int)[j] == key;
                        assert(keys@[j] == keys@[i as int]);
                    }
                }
                assert(now.entries.contains_key(slot));
            }
            if any_stale(boxes, dirty, &key) {
                let ghost m = self.entries@;
                let removed = self.entries.remove(&slot);
                proof {
                    entry_removed(m, slot);
                    shares_move(
                        now.entries,
                        slot,
                        EntryModel::Spilled { bytes: 0, last_used: 0 },
                    );
                    assert(self@.entries =~= now.entries.remove(slot));
                }
                let mut copy: bool = false;
                match removed {
                    Some(Entry::Ready { chunk: _, bytes, last_used: _, spilled }) => {
                        freed = freed + bytes;
                        copy = spilled;
                    },
                    Some(Entry::Spilled { bytes, last_used: _ }) => {
                        freed_disk = freed_disk + bytes;
                        copy = true;
                    },
                    _ => {},
                }
                assert(copy == has_copy(start.entries[slot]));
                if copy {
                    gone.push(slot);
                    proof {
                        assert(!done.contains(slot));
                        pushed_once(done, slot);
                    }
                }
            }
            proof {
                let next = keys@.take(i + 1);
                assert forall|k: Slot|
                    #[trigger] self@.entries.contains_key(k) == (start.entries.contains_key(k) && !(k.node
                        == node && next.contains(k.key) && stale(boxes@, *dirty, k.key))) by {
                    assert(now.entries.contains_key(k) == (start.entries.contains_key(k) && !(k.node
                        == node && keys@.take(i as int).contains(k.key) && stale(
                        boxes@,
                        *dirty,
                        k.key,
                    ))));
                    assert(next.contains(k.key) == (keys@.take(i as int).contains(k.key) || k.key
                        == key));
                    if k.node == node && k.key == key {
                        assert(k == slot);
                    }
                }
                assert forall|k: Slot|
                    #[trigger] gone@.contains(k) == (k.node == node && next.contains(k.key)
                        && stale(boxes@, *dirty, k.key) && has_copy(start.entries[k])) by {
                    assert(done.contains(k) == (k.node == node && keys@.take(i as int).contains(
                        k.key,
                    ) && stale(boxes@, *dirty, k.key) && has_copy(start.entries[k])));
                    assert(next.contains(k.key) == (keys@.take(i as int).contains(k.key) || k.key
                        == key));
                    if k.node == node && k.key == key {
                        assert(k == slot);
                    }
                }
            }
        }
        assert(keys@.take(n as int) =~= keys@);
        state_bytes_sub(&mut self.bytes, freed);
        state_bytes_sub(&mut self.disk_bytes, freed_disk);
        proof {
            assert(self@.entries =~= start.untouched(node, boxes@, *dirty)) by {
                assert forall|k: Slot|
                    self@.entries.contains_key(k) == start.untouched(
                        node,
                        boxes@,
                        *dirty,
                    ).contains_key(k) by {
                    if k.node == node {
                        assert(k == (Slot { node, key: k.key }));
                    }
                }
            }
            assert forall|k: Slot| gone@.contains(k) == (start.touched(node, boxes@, *dirty, k)
                && has_copy(start.entries[k])) by {
                if k.node == node {
                    assert(k == (Slot { node, key: k.key }));
                }
            }
        }
        gone
    }
}

proof fn taken_next<T>(s: Seq<T>, i: int)
    requires
        0 <= i < s.len(),
    ensures
        forall|x: T| s.take(i + 1).contains(x) <==> s.take(i).contains(x) || x == s[i],
{
    let a = s.take(i);
    let b = s.take(i + 1);
    assert(b =~= a.push(s[i]));
    assert forall|x: T| b.contains(x) <==> a.contains(x) || x == s[i] by {
        if b.contains(x) {
            let j = choose|j: int| 0 <= j < b.len() && b[j] == x;
            if j < i {
                assert(a[j] == x);
            }
        }
        if a.contains(x) {
            let j = choose|j: int| 0 <= j < a.len() && a[j] == x;
            assert(b[j] == x);
        }
        if x == s[i] {
            assert(b[i] == x);
        }
    }
}

proof fn pushed_once<T>(s: Seq<T>, x: T)
    requires
        s.no_duplicates(),
        !s.contains(x),
    ensures
        s.push(x).no_duplicates(),
        forall|y: T| s.push(x).contains(y) <==> s.contains(y) || y == x,
{
    let t = s.push(x);
    assert(t.take(s.len() as int) =~= s);
    taken_next(t, s.len() as int);
    assert(t.take(t.len() as int) =~= t);
    assert forall|a: int, b: int| 0 <= a < t.len() && 0 <= b < t.len() && a != b implies t[a]
        != t[b] by {
        if a == s.len() {
            assert(s[b] == t[b]);
            assert(s.contains(s[b]));
        } else if b == s.len() {
            assert(s[a] == t[a]);
            assert(s.contains(s[a]));
        }
    }
}

} // verus!
