//! What the chunk cache keeps: one computation per chunk, no chunk wedged
//! by a cancelled computation, budgets respected, and the longest unused
//! leaving first.

use vstd::prelude::*;

use crate::cache;
use crate::cache::{Action, CacheModel, EntryModel, Slot};
use crate::chunk;
use crate::chunk::{Chunk, FeatureModel};
use crate::chunk_ops;
use crate::geometry;
use crate::json;
use crate::json::Json;
use crate::sums;
use crate::window;
use crate::window::{Bbox, ChunkKey};

verus! {

/// While a chunk is being computed or loaded, everyone else who asks for
/// it waits.
pub proof fn a_taken_chunk_is_waited_for<C, W>(s: CacheModel<C, W>, slot: Slot, first: W, next: W)
    requires
        s.requested(slot, first).1 is Compute || s.requested(slot, first).1 is Load
            || s.requested(slot, first).1 is Wait,
    ensures
        s.requested(slot, first).0.requested(slot, next).1 is Wait,
        s.requested(slot, first).0.requested(slot, next).0.waiting(slot) == s.requested(
            slot,
            first,
        ).0.waiting(slot).push(next),
{
}

/// Asking for one chunk leaves every other entry as it was.
pub proof fn requests_do_not_meddle<C, W>(s: CacheModel<C, W>, slot: Slot, w: W, other: Slot)
    requires
        other != slot,
    ensures
        s.requested(slot, w).0.entries.contains_key(other) == s.entries.contains_key(other),
        s.entries.contains_key(other) ==> s.requested(slot, w).0.entries[other]
            == s.entries[other],
{
}

/// After a cancelled computation, whoever asks next takes the chunk over.
pub proof fn a_cancelled_chunk_is_taken_over<C, W>(s: CacheModel<C, W>, slot: Slot, w: W)
    ensures
        s.cancelled(slot).requested(slot, w).1 is Compute,
{
}

/// A chunk that was stored and not evicted is hit.
pub proof fn a_stored_chunk_is_hit<C, W>(
    s: CacheModel<C, W>,
    slot: Slot,
    chunk: C,
    bytes: usize,
    spilled: bool,
    w: W,
)
    ensures
        s.stored(slot, chunk, bytes, spilled).requested(slot, w).1 is Hit,
        s.stored(slot, chunk, bytes, spilled).entries[slot]->chunk == chunk,
{
}

/// The oldest entry exists wherever anything can leave.
proof fn something_is_oldest<C, W>(
    entries: Map<Slot, EntryModel<C, W>>,
    memory: bool,
    among: Set<Slot>,
) -> (k: Slot)
    requires
        among.finite(),
        among.len() > 0,
        forall|j: Slot|
            #[trigger] among.contains(j) ==> entries.contains_key(j) && cache::can_leave(
                entries[j],
                memory,
            ),
    ensures
        among.contains(k),
        forall|j: Slot|
            #[trigger] among.contains(j) && j != k ==> cache::leaves_before(entries, k, j),
    decreases among.len(),
{
    let c = among.choose();
    assert(among.contains(c));
    let rest = among.remove(c);
    if rest.len() == 0 {
        assert forall|j: Slot| #[trigger] among.contains(j) && j != c implies cache::leaves_before(
            entries,
            c,
            j,
        ) by {
            assert(rest.contains(j));
        }
        c
    } else {
        assert forall|j: Slot| #[trigger] rest.contains(j) implies entries.contains_key(j)
            && cache::can_leave(entries[j], memory) by {
            assert(among.contains(j));
        }
        let b = something_is_oldest(entries, memory, rest);
        assert(rest.contains(b));
        window::keys_are_ordered(c.key, b.key, c.key);
        if cache::leaves_before(entries, b, c) {
            assert forall|j: Slot|
                #[trigger] among.contains(j) && j != b implies cache::leaves_before(
                entries,
                b,
                j,
            ) by {
                if j != c {
                    assert(rest.contains(j));
                }
            }
            b
        } else {
            assert(cache::leaves_before(entries, c, b));
            assert forall|j: Slot|
                #[trigger] among.contains(j) && j != c implies cache::leaves_before(
                entries,
                c,
                j,
            ) by {
                assert(rest.contains(j));
                if j != b {
                    assert(cache::leaves_before(entries, b, j));
                    window::keys_are_ordered(c.key, b.key, j.key);
                }
            }
            c
        }
    }
}

proof fn leaving_is_finite<C, W>(entries: Map<Slot, EntryModel<C, W>>, memory: bool)
    requires
        entries.dom().finite(),
    ensures
        cache::leaving(entries, memory).finite(),
{
    vstd::set_lib::lemma_len_subset(cache::leaving(entries, memory), entries.dom());
}

/// Where nothing is the oldest, nothing can leave.
proof fn no_oldest_means_none<C, W>(entries: Map<Slot, EntryModel<C, W>>, memory: bool)
    requires
        entries.dom().finite(),
        cache::oldest(entries, memory) is None,
    ensures
        forall|k: Slot| #[trigger] entries.contains_key(k) ==> !cache::can_leave(entries[k], memory),
{
    let among = cache::leaving(entries, memory);
    leaving_is_finite(entries, memory);
    if exists|k: Slot| #[trigger] entries.contains_key(k) && cache::can_leave(entries[k], memory) {
        let c = choose|k: Slot|
            #[trigger] entries.contains_key(k) && cache::can_leave(entries[k], memory);
        assert(among.contains(c));
        let k = something_is_oldest(entries, memory, among);
        assert(among.contains(k));
        assert forall|j: Slot|
            #[trigger] entries.contains_key(j) && cache::can_leave(entries[j], memory) && j
                != k implies cache::leaves_before(entries, k, j) by {
            assert(among.contains(j));
        }
        assert(cache::is_oldest(entries, memory, k));
    }
}

proof fn nothing_ready_weighs_nothing<C, W>(entries: Map<Slot, EntryModel<C, W>>)
    requires
        entries.dom().finite(),
    ensures
        (forall|k: Slot| #[trigger] entries.contains_key(k) ==> !(entries[k] is Ready))
            ==> cache::in_memory(entries) == 0,
        (forall|k: Slot| #[trigger] entries.contains_key(k) ==> !(entries[k] is Spilled))
            ==> cache::on_disk(entries) == 0,
{
    if forall|k: Slot| #[trigger] entries.contains_key(k) ==> !(entries[k] is Ready) {
        let f = |e: EntryModel<C, W>| cache::memory_of(e);
        let g = |k: Slot| f(entries[k]);
        assert forall|k: Slot| entries.dom().contains(k) implies #[trigger] g(k) == 0 by {
            assert(entries.contains_key(k));
        }
        sums::no_weight(entries.dom(), g);
    }
    if forall|k: Slot| #[trigger] entries.contains_key(k) ==> !(entries[k] is Spilled) {
        let f = |e: EntryModel<C, W>| cache::disk_of(e);
        let g = |k: Slot| f(entries[k]);
        assert forall|k: Slot| entries.dom().contains(k) implies #[trigger] g(k) == 0 by {
            assert(entries.contains_key(k));
        }
        sums::no_weight(entries.dom(), g);
    }
}

proof fn the_oldest<C, W>(entries: Map<Slot, EntryModel<C, W>>, memory: bool) -> (k: Slot)
    requires
        cache::oldest(entries, memory) is Some,
    ensures
        cache::oldest(entries, memory) == Some(k),
        cache::is_oldest(entries, memory, k),
{
    choose|k: Slot| cache::is_oldest(entries, memory, k)
}

/// Eviction from memory keeps the accounts sound and within budget, and
/// what stays in memory was used later than what left it.
pub proof fn memory_eviction<C, W>(s: CacheModel<C, W>, budget: nat, keeps_disk: bool)
    requires
        s.wf(),
    ensures
        s.evicted(budget, keeps_disk).0.wf(),
        cache::in_memory(s.evicted(budget, keeps_disk).0.entries) <= budget,
        s.evicted(budget, keeps_disk).0.tick == s.tick,
        forall|k: Slot|
            #[trigger] s.evicted(budget, keeps_disk).0.entries.contains_key(k)
                ==> s.entries.contains_key(k) && (s.evicted(budget, keeps_disk).0.entries[k]
                == s.entries[k] || s.evicted(budget, keeps_disk).0.entries[k] is Spilled),
        forall|k: Slot, j: Slot|
            #![trigger s.entries.contains_key(k), s.entries.contains_key(j)]
            left_memory(s, s.evicted(budget, keeps_disk).0, k) && stayed_in_memory(
                s,
                s.evicted(budget, keeps_disk).0,
                j,
            ) ==> cache::leaves_before(s.entries, k, j),
    decreases cache::leaving(s.entries, true).len(),
{
    if s.bytes > budget {
        if cache::oldest(s.entries, true) is None {
            no_oldest_means_none(s.entries, true);
            nothing_ready_weighs_nothing(s.entries);
        } else {
            let k0 = the_oldest(s.entries, true);
            cache::one_leaves(s, k0, keeps_disk);
            demoting_is_sound(s, k0, keeps_disk);
            let next = s.demoted(k0, keeps_disk).0;
            memory_eviction(next, budget, keeps_disk);
            let last = next.evicted(budget, keeps_disk).0;
            assert forall|k: Slot, j: Slot|
                #![trigger s.entries.contains_key(k), s.entries.contains_key(j)]
                left_memory(s, last, k) && stayed_in_memory(
                    s,
                    last,
                    j,
                ) implies cache::leaves_before(s.entries, k, j) by {
                assert(last.entries.contains_key(j));
                assert(j != k0) by {
                    if j == k0 {
                        assert(next.entries.contains_key(j));
                    }
                }
                if k == k0 {
                    assert(cache::can_leave(s.entries[j], true));
                } else {
                    assert(next.entries.contains_key(k));
                    assert(next.entries.contains_key(j));
                    assert(left_memory(next, last, k));
                    assert(stayed_in_memory(next, last, j));
                    assert(cache::leaves_before(next.entries, k, j));
                }
            }
        }
    }
}

/// A chunk was in memory before and is not after.
pub open spec fn left_memory<C, W>(before: CacheModel<C, W>, after: CacheModel<C, W>, k: Slot) -> bool {
    before.entries.contains_key(k) && before.entries[k] is Ready && !(after.entries.contains_key(k)
        && after.entries[k] is Ready)
}

/// A chunk was in memory before and is after.
pub open spec fn stayed_in_memory<C, W>(
    before: CacheModel<C, W>,
    after: CacheModel<C, W>,
    k: Slot,
) -> bool {
    before.entries.contains_key(k) && before.entries[k] is Ready && after.entries.contains_key(k)
        && after.entries[k] is Ready
}

proof fn demoting_is_sound<C, W>(s: CacheModel<C, W>, k: Slot, keeps_disk: bool)
    requires
        s.wf(),
        s.entries.contains_key(k),
        s.entries[k] is Ready,
    ensures
        s.demoted(k, keeps_disk).0.wf(),
        s.bytes + s.disk_bytes >= s.demoted(k, keeps_disk).0.bytes + s.demoted(
            k,
            keeps_disk,
        ).0.disk_bytes,
{
    let e = s.entries[k];
    cache::shares_move(
        s.entries,
        k,
        EntryModel::Spilled { bytes: e->Ready_bytes, last_used: e->Ready_last_used },
    );
}

/// Eviction from disk keeps the accounts sound and within budget and
/// leaves memory alone.
pub proof fn disk_eviction<C, W>(s: CacheModel<C, W>, budget: nat)
    requires
        s.wf(),
    ensures
        s.disk_evicted(budget).0.wf(),
        cache::on_disk(s.disk_evicted(budget).0.entries) <= budget,
        cache::in_memory(s.disk_evicted(budget).0.entries) == cache::in_memory(s.entries),
        s.disk_evicted(budget).0.bytes == s.bytes,
        forall|k: Slot|
            #[trigger] s.entries.contains_key(k) && !(s.entries[k] is Spilled) ==> s.disk_evicted(
                budget,
            ).0.entries.contains_key(k) && s.disk_evicted(budget).0.entries[k] == s.entries[k],
    decreases cache::leaving(s.entries, false).len(),
{
    if s.disk_bytes > budget {
        if cache::oldest(s.entries, false) is None {
            no_oldest_means_none(s.entries, false);
            nothing_ready_weighs_nothing(s.entries);
        } else {
            let k0 = the_oldest(s.entries, false);
            cache::one_is_dropped(s, k0);
            cache::shares_move(s.entries, k0, s.entries[k0]);
            let next = s.dropped(k0);
            disk_eviction(next, budget);
            assert forall|k: Slot|
                #[trigger] s.entries.contains_key(k) && !(s.entries[k] is Spilled) implies
                s.disk_evicted(budget).0.entries.contains_key(k) && s.disk_evicted(
                budget,
            ).0.entries[k] == s.entries[k] by {
                assert(next.entries.contains_key(k));
            }
        }
    }
}

/// Once a chunk is stored, memory and disk are within their budgets.
pub proof fn budgets_are_kept<C, W>(
    s: CacheModel<C, W>,
    slot: Slot,
    chunk: C,
    bytes: usize,
    spilled: bool,
    budget: usize,
    disk_budget: Option<usize>,
)
    requires
        s.wf(),
    ensures
        ({
            let after = s.stored(slot, chunk, bytes, spilled).within(budget, disk_budget).0;
            &&& after.wf()
            &&& cache::in_memory(after.entries) <= budget
            &&& disk_budget matches Some(d) ==> cache::on_disk(after.entries) <= d
        }),
{
    let fresh = s.stored(slot, chunk, bytes, spilled);
    cache::shares_move(s.entries, slot, fresh.entries[slot]);
    memory_eviction(fresh, budget as nat, disk_budget is Some);
    let next = fresh.evicted(budget as nat, disk_budget is Some).0;
    if let Some(d) = disk_budget {
        disk_eviction(next, d as nat);
    }
}

/// The accounts are exact and everything was used before now.
pub open spec fn settled<C, W>(s: CacheModel<C, W>) -> bool {
    &&& s.wf()
    &&& s.bytes == cache::in_memory(s.entries)
    &&& s.tick < u64::MAX
    &&& forall|k: Slot| #[trigger] s.entries.contains_key(k) ==> cache::age_of(s.entries[k]) <= s.tick
}

proof fn the_newest_stays<C, W>(s: CacheModel<C, W>, slot: Slot, budget: nat, keeps_disk: bool)
    requires
        s.wf(),
        s.bytes == cache::in_memory(s.entries),
        s.entries.contains_key(slot),
        s.entries[slot] is Ready,
        cache::memory_of(s.entries[slot]) <= budget,
        forall|k: Slot|
            #[trigger] s.entries.contains_key(k) && k != slot ==> cache::age_of(s.entries[k])
                < cache::age_of(s.entries[slot]),
    ensures
        s.evicted(budget, keeps_disk).0.entries.contains_key(slot),
        s.evicted(budget, keeps_disk).0.entries[slot] == s.entries[slot],
    decreases cache::leaving(s.entries, true).len(),
{
    if s.bytes > budget && cache::oldest(s.entries, true) is Some {
        let k0 = the_oldest(s.entries, true);
        let e = s.entries[k0];
        cache::one_leaves(s, k0, keeps_disk);
        cache::shares_move(
            s.entries,
            k0,
            EntryModel::Spilled { bytes: e->Ready_bytes, last_used: e->Ready_last_used },
        );
        let next = s.demoted(k0, keeps_disk).0;
        if k0 == slot {
            // Nothing else is in memory, so the account is within budget.
            let rest = s.entries.remove(slot);
            assert forall|k: Slot| #[trigger] rest.contains_key(k) implies !(rest[k] is Ready) by {
                assert(s.entries.contains_key(k));
                if rest[k] is Ready {
                    assert(cache::leaves_before(s.entries, slot, k));
                }
            }
            nothing_ready_weighs_nothing(rest);
            assert(false);
        }
        demoting_is_sound(s, k0, keeps_disk);
        assert forall|k: Slot|
            #[trigger] next.entries.contains_key(k) && k != slot implies cache::age_of(
            next.entries[k],
        ) < cache::age_of(next.entries[slot]) by {
            assert(s.entries.contains_key(k));
        }
        the_newest_stays(next, slot, budget, keeps_disk);
    }
}

/// With exact accounts, a chunk that fits the budget is still in memory
/// after it was stored: only others left for it.
pub proof fn a_fitting_chunk_stays<C, W>(
    s: CacheModel<C, W>,
    slot: Slot,
    chunk: C,
    bytes: usize,
    spilled: bool,
    budget: usize,
    disk_budget: Option<usize>,
)
    requires
        settled(s),
        !(s.entries.contains_key(slot) && s.entries[slot] is Ready),
        bytes <= budget,
    ensures
        ({
            let after = s.stored(slot, chunk, bytes, spilled).within(budget, disk_budget).0;
            &&& after.entries.contains_key(slot)
            &&& after.entries[slot] is Ready
            &&& after.entries[slot]->chunk == chunk
        }),
{
    let fresh = s.stored(slot, chunk, bytes, spilled);
    cache::shares_move(s.entries, slot, fresh.entries[slot]);
    assert forall|k: Slot|
        #[trigger] fresh.entries.contains_key(k) && k != slot implies cache::age_of(
        fresh.entries[k],
    ) < cache::age_of(fresh.entries[slot]) by {
        assert(s.entries.contains_key(k));
    }
    the_newest_stays(fresh, slot, budget as nat, disk_budget is Some);
    memory_eviction(fresh, budget as nat, disk_budget is Some);
    let next = fresh.evicted(budget as nat, disk_budget is Some).0;
    if let Some(d) = disk_budget {
        disk_eviction(next, d as nat);
        assert(next.entries.contains_key(slot));
    }
}

/// After an invalidation no chunk of the node that the region touches is
/// left, and every other entry is as it was.
pub proof fn invalidation_is_exact<C, W>(
    s: CacheModel<C, W>,
    node: usize,
    boxes: Seq<(ChunkKey, Bbox)>,
    dirty: Bbox,
    k: Slot,
)
    ensures
        ({
            let after = s.invalidated(node, boxes, dirty);
            &&& k.node == node && cache::stale(boxes, dirty, k.key) ==> !after.entries.contains_key(k)
            &&& !(k.node == node && cache::stale(boxes, dirty, k.key))
                ==> after.entries.contains_key(k) == s.entries.contains_key(k)
            &&& after.entries.contains_key(k) ==> after.entries[k] == s.entries[k]
        }),
{
}

// Runs.

/// What happens to one chunk.
pub enum Event<C, W> {
    /// A call asks for it.
    Ask(W),
    /// The call that was told to compute it is done.
    Done { chunk: C, bytes: usize, spilled: bool, budget: usize, disk_budget: Option<usize> },
    /// Something else happens, which neither drops nor replaces it.
    Elsewhere,
}

/// A chunk is as it was, whatever became of others: absent, being computed
/// for the same callers, or the same chunk in memory.
pub open spec fn untouched<C, W>(a: CacheModel<C, W>, b: CacheModel<C, W>, slot: Slot) -> bool {
    if a.entries.contains_key(slot) {
        b.entries.contains_key(slot) && match a.entries[slot] {
            EntryModel::Ready { chunk, .. } => b.entries[slot] is Ready && b.entries[slot]->chunk
                == chunk,
            e => b.entries[slot] == e,
        }
    } else {
        !b.entries.contains_key(slot)
    }
}

/// One state comes of another by an event. A chunk that is stored is not
/// evicted at once.
pub open spec fn follows<C, W>(
    a: CacheModel<C, W>,
    b: CacheModel<C, W>,
    slot: Slot,
    e: Event<C, W>,
) -> bool {
    match e {
        Event::Ask(w) => b == a.requested(slot, w).0,
        Event::Done { chunk, bytes, spilled, budget, disk_budget } => {
            let fresh = a.stored(slot, chunk, bytes, spilled);
            let kept = fresh.evicted(budget as nat, disk_budget is Some).0.entries;
            &&& b == fresh.within(budget, disk_budget).0
            &&& kept.contains_key(slot)
            &&& kept[slot] is Ready
        },
        Event::Elsewhere => untouched(a, b, slot),
    }
}

/// States that follow each other.
pub open spec fn is_run<C, W>(
    states: Seq<CacheModel<C, W>>,
    events: Seq<Event<C, W>>,
    slot: Slot,
) -> bool {
    &&& states.len() == events.len() + 1
    &&& forall|i: int| 0 <= i < states.len() ==> (#[trigger] states[i]).wf()
    &&& forall|i: int|
        0 <= i < events.len() ==> follows(states[i], states[i + 1], slot, #[trigger] events[i])
}

/// Who asked in the first `n` events, in order.
pub open spec fn askers<C, W>(events: Seq<Event<C, W>>, n: int) -> Seq<W>
    decreases n,
{
    if n <= 0 {
        Seq::empty()
    } else {
        match events[n - 1] {
            Event::Ask(w) => askers(events, n - 1).push(w),
            _ => askers(events, n - 1),
        }
    }
}

/// What the call of an event is told.
pub open spec fn told<C, W>(
    states: Seq<CacheModel<C, W>>,
    events: Seq<Event<C, W>>,
    slot: Slot,
    i: int,
) -> Action {
    states[i].requested(slot, events[i]->Ask_0).1
}

proof fn the_first_asker_computes<C, W>(
    states: Seq<CacheModel<C, W>>,
    events: Seq<Event<C, W>>,
    slot: Slot,
    n: int,
)
    requires
        is_run(states, events, slot),
        !states[0].entries.contains_key(slot),
        0 <= n <= events.len(),
        forall|i: int| 0 <= i < n ==> !((#[trigger] events[i]) is Done),
    ensures
        askers(events, n).len() == 0 ==> !states[n].entries.contains_key(slot),
        askers(events, n).len() > 0 ==> states[n].entries.contains_key(slot)
            && states[n].entries[slot] == (EntryModel::<C, W>::Pending {
            waiters: askers(events, n).drop_first(),
        }),
    decreases n,
{
    if n > 0 {
        the_first_asker_computes(states, events, slot, n - 1);
        assert(follows(states[n - 1], states[n - 1 + 1], slot, events[n - 1]));
        let before = askers(events, n - 1);
        if let Event::Ask(w) = events[n - 1] {
            if before.len() > 0 {
                assert(before.push(w).drop_first() =~= before.drop_first().push(w));
            } else {
                assert(before.push(w).drop_first() =~= Seq::empty());
            }
        }
    }
}

proof fn the_chunk_stays<C, W>(
    states: Seq<CacheModel<C, W>>,
    events: Seq<Event<C, W>>,
    slot: Slot,
    d: int,
    n: int,
)
    requires
        is_run(states, events, slot),
        0 <= d < n <= events.len(),
        events[d] is Done,
        forall|i: int| d < i < n ==> !((#[trigger] events[i]) is Done),
    ensures
        states[n].entries.contains_key(slot),
        states[n].entries[slot] is Ready,
        states[n].entries[slot]->chunk == events[d]->chunk,
    decreases n,
{
    assert(follows(states[n - 1], states[n - 1 + 1], slot, events[n - 1]));
    if n - 1 > d {
        the_chunk_stays(states, events, slot, d, n - 1);
    } else if let Event::Done { chunk, bytes, spilled, budget, disk_budget } = events[d] {
        let a = states[d];
        let fresh = a.stored(slot, chunk, bytes, spilled);
        assert(a.wf());
        cache::shares_move(a.entries, slot, fresh.entries[slot]);
        memory_eviction(fresh, budget as nat, disk_budget is Some);
        let next = fresh.evicted(budget as nat, disk_budget is Some).0;
        assert(next.entries.contains_key(slot));
        if let Some(most) = disk_budget {
            disk_eviction(next, most as nat);
        }
    }
}

/// However many calls ask for a chunk that is not there, one computes it:
/// the first. The others wait and are woken when it is done, and every call
/// that asks from then on gets the one chunk that was computed, for as long
/// as nothing drops it.
pub proof fn concurrent_calls_share_one_computation<C, W>(
    states: Seq<CacheModel<C, W>>,
    events: Seq<Event<C, W>>,
    slot: Slot,
    d: int,
)
    requires
        is_run(states, events, slot),
        !states[0].entries.contains_key(slot),
        0 <= d < events.len(),
        events[d] is Done,
        forall|i: int| 0 <= i < events.len() && i != d ==> !((#[trigger] events[i]) is Done),
        askers(events, d).len() > 0,
    ensures
        states[d].waiting(slot) == askers(events, d).drop_first(),
        forall|i: int|
            0 <= i < events.len() && (#[trigger] events[i]) is Ask ==> told(
                states,
                events,
                slot,
                i,
            ) == (if i > d {
                Action::Hit
            } else if askers(events, i).len() == 0 {
                Action::Compute
            } else {
                Action::Wait
            }),
        forall|i: int|
            d < i <= events.len() ==> (#[trigger] states[i]).entries.contains_key(slot)
                && states[i].entries[slot] is Ready && states[i].entries[slot]->chunk
                == events[d]->chunk,
{
    the_first_asker_computes(states, events, slot, d);
    assert forall|i: int| d < i <= events.len() implies (
    #[trigger] states[i]).entries.contains_key(slot) && states[i].entries[slot] is Ready
        && states[i].entries[slot]->chunk == events[d]->chunk by {
        the_chunk_stays(states, events, slot, d, i);
    }
    assert forall|i: int| 0 <= i < events.len() && (#[trigger] events[i]) is Ask implies told(
        states,
        events,
        slot,
        i,
    ) == (if i > d {
        Action::Hit
    } else if askers(events, i).len() == 0 {
        Action::Compute
    } else {
        Action::Wait
    }) by {
        if i > d {
            assert(states[i].entries.contains_key(slot));
        } else {
            the_first_asker_computes(states, events, slot, i);
        }
    }
}

// Accounts.

/// The accounts are the sums of what the entries take.
pub open spec fn exact<C, W>(s: CacheModel<C, W>) -> bool {
    &&& s.entries.dom().finite()
    &&& s.bytes == cache::in_memory(s.entries)
    &&& s.disk_bytes == cache::on_disk(s.entries)
}

/// A call on the cache.
pub enum CacheCall<C, W> {
    Request(Slot, W),
    Finish {
        slot: Slot,
        chunk: C,
        bytes: usize,
        spilled: bool,
        budget: usize,
        disk_budget: Option<usize>,
    },
    Mark(Slot),
    Cancel(Slot),
    Invalidate(usize, Seq<(ChunkKey, Bbox)>, Bbox),
}

/// The cache once it was called.
pub open spec fn called<C, W>(s: CacheModel<C, W>, call: CacheCall<C, W>) -> CacheModel<C, W> {
    match call {
        CacheCall::Request(slot, w) => s.requested(slot, w).0,
        CacheCall::Finish { slot, chunk, bytes, spilled, budget, disk_budget } => s.stored(
            slot,
            chunk,
            bytes,
            spilled,
        ).within(budget, disk_budget).0,
        CacheCall::Mark(slot) => s.marked(slot),
        CacheCall::Cancel(slot) => s.cancelled(slot),
        CacheCall::Invalidate(node, boxes, dirty) => s.invalidated(node, boxes, dirty),
    }
}

/// The cache after the first `n` of some calls.
pub open spec fn after_calls<C, W>(calls: Seq<CacheCall<C, W>>, n: int) -> CacheModel<C, W>
    decreases n,
{
    if n <= 0 {
        CacheModel::empty()
    } else {
        called(after_calls(calls, n - 1), calls[n - 1])
    }
}

/// A slot takes nothing: it is free, or being computed or loaded.
pub open spec fn takes_nothing<C, W>(s: CacheModel<C, W>, slot: Slot) -> bool {
    s.entries.contains_key(slot) ==> s.entries[slot] is Pending
}

/// A computation that ends, or is given up, finds no chunk in its place.
pub open spec fn ends_in_place<C, W>(s: CacheModel<C, W>, call: CacheCall<C, W>) -> bool {
    match call {
        CacheCall::Finish { slot, .. } => takes_nothing(s, slot),
        CacheCall::Cancel(slot) => takes_nothing(s, slot),
        _ => true,
    }
}

proof fn demoting_stays_exact<C, W>(s: CacheModel<C, W>, k: Slot, keeps_disk: bool)
    requires
        exact(s),
        s.entries.contains_key(k),
        s.entries[k] is Ready,
    ensures
        exact(s.demoted(k, keeps_disk).0),
{
    let e = s.entries[k];
    cache::shares_move(
        s.entries,
        k,
        EntryModel::Spilled { bytes: e->Ready_bytes, last_used: e->Ready_last_used },
    );
}

proof fn evicting_stays_exact<C, W>(s: CacheModel<C, W>, budget: nat, keeps_disk: bool)
    requires
        exact(s),
    ensures
        exact(s.evicted(budget, keeps_disk).0),
    decreases cache::leaving(s.entries, true).len(),
{
    if s.bytes > budget && cache::oldest(s.entries, true) is Some {
        let k = the_oldest(s.entries, true);
        cache::one_leaves(s, k, keeps_disk);
        demoting_stays_exact(s, k, keeps_disk);
        evicting_stays_exact(s.demoted(k, keeps_disk).0, budget, keeps_disk);
    }
}

proof fn dropping_stays_exact<C, W>(s: CacheModel<C, W>, budget: nat)
    requires
        exact(s),
    ensures
        exact(s.disk_evicted(budget).0),
    decreases cache::leaving(s.entries, false).len(),
{
    if s.disk_bytes > budget && cache::oldest(s.entries, false) is Some {
        let k = the_oldest(s.entries, false);
        cache::one_is_dropped(s, k);
        cache::shares_move(s.entries, k, s.entries[k]);
        dropping_stays_exact(s.dropped(k), budget);
    }
}

proof fn a_call_stays_exact<C, W>(s: CacheModel<C, W>, call: CacheCall<C, W>)
    requires
        exact(s),
        ends_in_place(s, call),
    ensures
        exact(called(s, call)),
{
    match call {
        CacheCall::Request(slot, w) => {
            let next = s.requested(slot, w).0;
            cache::shares_move(s.entries, slot, next.entries[slot]);
        },
        CacheCall::Finish { slot, chunk, bytes, spilled, budget, disk_budget } => {
            let fresh = s.stored(slot, chunk, bytes, spilled);
            cache::shares_move(s.entries, slot, fresh.entries[slot]);
            evicting_stays_exact(fresh, budget as nat, disk_budget is Some);
            let next = fresh.evicted(budget as nat, disk_budget is Some).0;
            if let Some(d) = disk_budget {
                dropping_stays_exact(next, d as nat);
            }
        },
        CacheCall::Mark(slot) => {
            if s.entries.contains_key(slot) {
                cache::shares_move(s.entries, slot, s.marked(slot).entries[slot]);
            }
        },
        CacheCall::Cancel(slot) => {
            cache::shares_move(s.entries, slot, EntryModel::Spilled { bytes: 0, last_used: 0 });
        },
        CacheCall::Invalidate(node, boxes, dirty) => {
            let kept = s.untouched(node, boxes, dirty);
            assert(kept.dom().subset_of(s.entries.dom()));
            vstd::set_lib::lemma_len_subset(kept.dom(), s.entries.dom());
            parts_weigh_less(s.entries, kept);
        },
    }
}

/// Some of the entries take no more than all of them.
proof fn parts_weigh_less<C, W>(
    all: Map<Slot, EntryModel<C, W>>,
    part: Map<Slot, EntryModel<C, W>>,
)
    requires
        all.dom().finite(),
        part.dom().finite(),
        part.dom().subset_of(all.dom()),
        forall|k: Slot| #[trigger] part.contains_key(k) ==> part[k] == all[k],
    ensures
        cache::in_memory(part) <= cache::in_memory(all),
        cache::on_disk(part) <= cache::on_disk(all),
    decreases all.dom().len(),
{
    if part.dom() =~= all.dom() {
        assert(part =~= all);
    } else {
        let k = choose|k: Slot| all.contains_key(k) && !part.contains_key(k);
        assert(all.contains_key(k) && !part.contains_key(k)) by {
            if forall|k: Slot| all.contains_key(k) ==> part.contains_key(k) {
                assert(part.dom() =~= all.dom());
            }
        }
        cache::shares_move(all, k, all[k]);
        assert(all.remove(k).dom() =~= all.dom().remove(k));
        assert forall|j: Slot| #[trigger] part.contains_key(j) implies part[j] == all.remove(
            k,
        )[j] by {}
        parts_weigh_less(all.remove(k), part);
    }
}

/// Whatever calls came, both accounts are the sums of what the entries take,
/// as long as no computation ends where a chunk stands already.
pub proof fn accounts_stay_exact<C, W>(calls: Seq<CacheCall<C, W>>, n: int)
    requires
        0 <= n <= calls.len(),
        forall|i: int|
            0 <= i < n ==> ends_in_place(after_calls(calls, i), #[trigger] calls[i]),
    ensures
        exact(after_calls(calls, n)),
        after_calls(calls, n).wf(),
    decreases n,
{
    if n > 0 {
        accounts_stay_exact(calls, n - 1);
        assert(ends_in_place(after_calls(calls, n - 1), calls[n - 1]));
        a_call_stays_exact(after_calls(calls, n - 1), calls[n - 1]);
    } else {
        let none = Map::<Slot, EntryModel<C, W>>::empty();
        assert(none.dom() =~= Set::empty());
        sums::map_total_empty::<Slot, EntryModel<C, W>>(
            |e: EntryModel<C, W>| cache::memory_of(e),
        );
        sums::map_total_empty::<Slot, EntryModel<C, W>>(|e: EntryModel<C, W>| cache::disk_of(e));
    }
}

/// After the first `n` calls someone is at a chunk: they were told to
/// compute or load it, and have neither finished nor given up.
pub open spec fn someone_is_at<C, W>(calls: Seq<CacheCall<C, W>>, slot: Slot, n: int) -> bool
    decreases n,
{
    if n <= 0 {
        false
    } else {
        let before = someone_is_at(calls, slot, n - 1);
        match calls[n - 1] {
            CacheCall::Request(k, w) => before || (k == slot && {
                let told = after_calls(calls, n - 1).requested(k, w).1;
                told is Compute || told is Load
            }),
            CacheCall::Finish { slot: k, .. } => before && k != slot,
            CacheCall::Cancel(k) => before && k != slot,
            _ => before,
        }
    }
}

/// A call keeps to the rules: only who is at a chunk finishes it or gives it
/// up, and no dirty region touches a chunk that someone is at.
pub open spec fn keeps_to_the_rules<C, W>(calls: Seq<CacheCall<C, W>>, n: int) -> bool {
    match calls[n] {
        CacheCall::Finish { slot, .. } => someone_is_at(calls, slot, n),
        CacheCall::Cancel(slot) => someone_is_at(calls, slot, n),
        CacheCall::Invalidate(node, boxes, dirty) => forall|k: Slot| #[trigger]
            someone_is_at(calls, k, n) ==> !after_calls(calls, n).touched(node, boxes, dirty, k),
        _ => true,
    }
}

spec fn pending_at<C, W>(s: CacheModel<C, W>, k: Slot) -> bool {
    s.entries.contains_key(k) && s.entries[k] is Pending
}

proof fn evicting_leaves_pending<C, W>(s: CacheModel<C, W>, budget: nat, keeps_disk: bool, k: Slot)
    requires
        s.entries.dom().finite(),
        pending_at(s, k),
    ensures
        pending_at(s.evicted(budget, keeps_disk).0, k),
    decreases cache::leaving(s.entries, true).len(),
{
    if s.bytes > budget && cache::oldest(s.entries, true) is Some {
        let o = the_oldest(s.entries, true);
        cache::one_leaves(s, o, keeps_disk);
        evicting_leaves_pending(s.demoted(o, keeps_disk).0, budget, keeps_disk, k);
    }
}

proof fn who_is_at_it_holds_it<C, W>(calls: Seq<CacheCall<C, W>>, n: int)
    requires
        0 <= n <= calls.len(),
        forall|i: int| 0 <= i < n ==> #[trigger] keeps_to_the_rules(calls, i),
    ensures
        exact(after_calls(calls, n)),
        after_calls(calls, n).wf(),
        forall|k: Slot| #[trigger]
            someone_is_at(calls, k, n) ==> pending_at(after_calls(calls, n), k),
    decreases n,
{
    if n > 0 {
        who_is_at_it_holds_it(calls, n - 1);
        let s = after_calls(calls, n - 1);
        let call = calls[n - 1];
        assert(keeps_to_the_rules(calls, n - 1));
        assert(ends_in_place(s, call)) by {
            match call {
                CacheCall::Finish { slot, .. } => {
                    assert(someone_is_at(calls, slot, n - 1));
                    assert(pending_at(s, slot));
                },
                CacheCall::Cancel(slot) => {
                    assert(someone_is_at(calls, slot, n - 1));
                    assert(pending_at(s, slot));
                },
                _ => {},
            }
        }
        a_call_stays_exact(s, call);
        assert forall|k: Slot| #[trigger] someone_is_at(calls, k, n) implies pending_at(
            after_calls(calls, n),
            k,
        ) by {
            match call {
                CacheCall::Request(slot, w) => {
                    if someone_is_at(calls, k, n - 1) {
                        assert(pending_at(s, k));
                    }
                },
                CacheCall::Finish { slot, chunk, bytes, spilled, budget, disk_budget } => {
                    assert(someone_is_at(calls, k, n - 1));
                    let fresh = s.stored(slot, chunk, bytes, spilled);
                    cache::shares_move(s.entries, slot, fresh.entries[slot]);
                    assert(pending_at(fresh, k));
                    evicting_leaves_pending(fresh, budget as nat, disk_budget is Some, k);
                    evicting_stays_exact(fresh, budget as nat, disk_budget is Some);
                    let next = fresh.evicted(budget as nat, disk_budget is Some).0;
                    if let Some(d) = disk_budget {
                        disk_eviction(next, d as nat);
                        assert(next.entries.contains_key(k));
                    }
                },
                _ => {
                    assert(someone_is_at(calls, k, n - 1));
                    assert(pending_at(s, k));
                },
            }
        }
    } else {
        accounts_stay_exact(calls, 0);
    }
}

/// Whatever run of requests, finishes, marks, cancels and invalidations
/// came, both accounts are the sums of what the entries take, as long as no
/// dirty region touches a chunk that someone is at. Only who is at a chunk
/// finishes it or gives it up.
pub proof fn accounts_are_exact<C, W>(calls: Seq<CacheCall<C, W>>, n: int)
    requires
        0 <= n <= calls.len(),
        forall|i: int| 0 <= i < n ==> #[trigger] keeps_to_the_rules(calls, i),
    ensures
        exact(after_calls(calls, n)),
{
    who_is_at_it_holds_it(calls, n);
}

/// When a chunk was last used.
pub open spec fn last_used_of<C, W>(e: EntryModel<C, W>) -> Option<u64> {
    match e {
        EntryModel::Ready { last_used, .. } => Some(last_used),
        EntryModel::Spilled { last_used, .. } => Some(last_used),
        EntryModel::Pending { .. } => None,
    }
}

/// The chunks that leave memory are those that have not been used for the
/// longest time: none that stays was used before one that leaves. Nothing
/// leaves within the budget.
pub proof fn the_longest_unused_chunk_leaves_first<C, W>(
    s: CacheModel<C, W>,
    budget: nat,
    keeps_disk: bool,
    a: Slot,
    b: Slot,
)
    requires
        s.wf(),
    ensures
        s.bytes <= budget ==> s.evicted(budget, keeps_disk).0 == s && s.evicted(
            budget,
            keeps_disk,
        ).1.len() == 0,
        left_memory(s, s.evicted(budget, keeps_disk).0, a) && stayed_in_memory(
            s,
            s.evicted(budget, keeps_disk).0,
            b,
        ) ==> (last_used_of(s.entries[a]) matches Some(x) && last_used_of(
            s.entries[b],
        ) matches Some(y) && x <= y),
{
    memory_eviction(s, budget, keeps_disk);
    let last = s.evicted(budget, keeps_disk).0;
    if left_memory(s, last, a) && stayed_in_memory(s, last, b) {
        assert(s.entries.contains_key(a) && s.entries.contains_key(b));
        assert(cache::leaves_before(s.entries, a, b));
    }
}

/// A chunk that is asked for is used now, and so is one that is stored: no
/// other was used later.
pub proof fn what_is_asked_for_is_used_now<C, W>(
    s: CacheModel<C, W>,
    slot: Slot,
    waiter: W,
    chunk: C,
    bytes: usize,
    spilled: bool,
)
    requires
        s.tick < u64::MAX,
    ensures
        s.requested(slot, waiter).0.tick == s.tick + 1,
        s.entries.contains_key(slot) && s.entries[slot] is Ready ==> last_used_of(
            s.requested(slot, waiter).0.entries[slot],
        ) == Some((s.tick + 1) as u64),
        s.stored(slot, chunk, bytes, spilled).tick == s.tick + 1,
        last_used_of(s.stored(slot, chunk, bytes, spilled).entries[slot]) == Some(
            (s.tick + 1) as u64,
        ),
        s.stored(slot, chunk, bytes, spilled).bytes == s.bytes + bytes,
{
}

/// A chunk that leaves memory stays on disk where it has a copy there and
/// the disk is kept, and is accounted to the disk from then on; else it is
/// gone, and the copy that it may have had is to be deleted.
pub proof fn a_chunk_leaves_memory_for_its_copy<C, W>(
    s: CacheModel<C, W>,
    k: Slot,
    keeps_disk: bool,
    chunk: C,
    bytes: usize,
    last_used: u64,
    spilled: bool,
)
    requires
        s.entries.contains_key(k),
        s.entries[k] == (EntryModel::<C, W>::Ready { chunk, bytes, last_used, spilled }),
        bytes <= s.bytes,
    ensures
        ({
            let (next, gone) = s.demoted(k, keeps_disk);
            &&& next.bytes == s.bytes - bytes
            &&& spilled && keeps_disk ==> next.entries.contains_key(k) && next.entries[k] == (
            EntryModel::<C, W>::Spilled { bytes, last_used }) && next.disk_bytes == s.disk_bytes
                + bytes && gone.len() == 0
            &&& !(spilled && keeps_disk) ==> !next.entries.contains_key(k) && next.disk_bytes
                == s.disk_bytes && gone == (if spilled {
                seq![k]
            } else {
                Seq::<Slot>::empty()
            })
            &&& forall|j: Slot|
                j != k ==> #[trigger] next.entries.contains_key(j) == s.entries.contains_key(j) && (
                s.entries.contains_key(j) ==> next.entries[j] == s.entries[j])
        }),
{
}

// What chunks are accounted.

/// Features are accounted one by one: those of two lists as much as the
/// lists together.
pub proof fn features_are_accounted_one_by_one<W: Fn(&Vec<(String, Json)>) -> Vec<u8>>(
    w: W,
    a: Seq<FeatureModel>,
    b: Seq<FeatureModel>,
)
    ensures
        chunk_ops::features_size(w, a + b) == chunk_ops::features_size(w, a)
            + chunk_ops::features_size(w, b),
        chunk_ops::shapes_size(a + b) == chunk_ops::shapes_size(a) + chunk_ops::shapes_size(b),
    decreases b.len(),
{
    if b.len() == 0 {
        assert(a + b =~= a);
    } else {
        assert((a + b).drop_last() =~= a + b.drop_last());
        assert((a + b).last() == b.last());
        features_are_accounted_one_by_one(w, a, b.drop_last());
    }
}

/// A feature is accounted two words and two more for every coordinate, and
/// its properties as many bytes as they take written.
pub proof fn a_feature_is_accounted_by_its_coordinates<W: Fn(&Vec<(String, Json)>) -> Vec<u8>>(
    w: W,
    f: FeatureModel,
)
    ensures
        chunk_ops::shapes_size(seq![f]) == 16 * (1 + geometry::coords_of(f.geometry).len()),
        chunk_ops::features_size(w, seq![f]) == 16 * (1 + geometry::coords_of(f.geometry).len())
            + json::written_by(w, f.properties).len(),
{
    let none = Seq::<FeatureModel>::empty();
    assert(seq![f].drop_last() =~= none);
    assert(seq![f].last() == f);
    assert(chunk_ops::shapes_size(none) == 0);
    assert(chunk_ops::features_size(w, none) == 0);
}

/// A raster is accounted eight bytes for every pixel of every band, a point
/// cloud what its points take, and a tensor four bytes for every element.
pub proof fn pixels_and_points_are_accounted_alike<W: Fn(&Vec<(String, Json)>) -> Vec<u8>>(
    w: W,
    c: Chunk,
    point_size: usize,
)
    requires
        c.wf(),
    ensures
        match c {
            Chunk::Raster(r) => forall|b: int|
                0 <= b < r.bands@.len() ==> chunk_ops::chunk_size(w, c, point_size)
                    == r.bands@.len() * (#[trigger] r.bands@[b]).data@.len() * 8,
            Chunk::PointCloud(p) => chunk_ops::chunk_size(w, c, point_size) == point_size
                * p.points@.len(),
            Chunk::Vector(v) => chunk_ops::bare_size(w, c, point_size) == chunk_ops::shapes_size(
                chunk::features_model(v.features@),
            ) && chunk_ops::chunk_size(w, c, point_size) == chunk_ops::features_size(
                w,
                chunk::features_model(v.features@),
            ),
            Chunk::Tensor(t) => chunk_ops::chunk_size(w, c, point_size) == t.channels * (t.width
                * t.height) * 4,
        },
{
    if let Chunk::PointCloud(p) = c {
        assert(p.points@.len() * point_size as nat == point_size * p.points@.len())
            by (nonlinear_arith);
    }
}

} // verus!
