//! A finite map kept as a list of slots, one per key.

use vstd::prelude::*;

verus! {

/// A key of a table: two keys can be told apart.
pub trait TableKey: Copy {
    fn same_key(&self, other: &Self) -> (r: bool)
        ensures
            r == (*self == *other),
    ;
}

/// A finite map.
#[derive(Debug)]
pub struct Table<K, V> {
    slots: Vec<(K, V)>,
}

/// The map that a list of slots stands for.
pub open spec fn map_of<K, V>(slots: Seq<(K, V)>) -> Map<K, V> {
    Map::new(
        |k: K| exists|i: int| 0 <= i < slots.len() && #[trigger] slots[i].0 == k,
        |k: K| slots[choose|i: int| 0 <= i < slots.len() && #[trigger] slots[i].0 == k].1,
    )
}

/// No key has two slots.
pub open spec fn distinct_keys<K, V>(slots: Seq<(K, V)>) -> bool {
    forall|i: int, j: int|
        0 <= i < slots.len() && 0 <= j < slots.len() && i != j ==> (#[trigger] slots[i]).0 != (
        #[trigger] slots[j]).0
}

impl<K, V> View for Table<K, V> {
    type V = Map<K, V>;

    closed spec fn view(&self) -> Map<K, V> {
        map_of(self.slots@)
    }
}

impl<K: TableKey, V> Table<K, V> {
    /// No key has two slots.
    pub closed spec fn wf(&self) -> bool {
        distinct_keys(self.slots@)
    }

    /// The slots in the order in which they are listed.
    pub closed spec fn listing(&self) -> Seq<(K, V)> {
        self.slots@
    }

    pub fn new() -> (r: Self)
        ensures
            r.wf(),
            r@ == Map::<K, V>::empty(),
    {
        let r = Table { slots: Vec::new() };
        assert(r@ =~= Map::<K, V>::empty());
        r
    }

    /// The listing holds each key of the map once, with its value.
    pub proof fn listing_is_complete(&self)
        requires
            self.wf(),
        ensures
            distinct_keys(self.listing()),
            self@ == map_of(self.listing()),
            self@.dom().finite(),
            self@.dom().len() == self.listing().len(),
            forall|i: int|
                0 <= i < self.listing().len() ==> self@.contains_key(
                    (#[trigger] self.listing()[i]).0,
                ) && self@[self.listing()[i].0] == self.listing()[i].1,
    {
        slots_hold(self.slots@);
        map_is_finite(self.slots@);
    }

    fn find(&self, k: &K) -> (r: Option<usize>)
        requires
            self.wf(),
        ensures
            match r {
                Some(i) => i < self.slots@.len() && self.slots@[i as int].0 == *k
                    && self@.contains_key(*k) && self@[*k] == self.slots@[i as int].1,
                None => !self@.contains_key(*k),
            },
    {
        for i in 0..self.slots.len()
            invariant
                self.wf(),
                forall|j: int| 0 <= j < i ==> (#[trigger] self.slots@[j]).0 != *k,
        {
            if self.slots[i].0.same_key(k) {
                proof {
                    slots_hold(self.slots@);
                }
                return Some(i);
            }
        }
        None
    }

    pub fn get(&self, k: &K) -> (r: Option<&V>)
        requires
            self.wf(),
        ensures
            match r {
                Some(v) => self@.contains_key(*k) && self@[*k] == *v,
                None => !self@.contains_key(*k),
            },
    {
        match self.find(k) {
            Some(i) => Some(&self.slots[i].1),
            None => None,
        }
    }

    /// Put a value at a key; what was there before comes back.
    pub fn insert(&mut self, k: K, v: V) -> (r: Option<V>)
        requires
            old(self).wf(),
        ensures
            final(self).wf(),
            final(self)@ == old(self)@.insert(k, v),
            match r {
                Some(w) => old(self)@.contains_key(k) && old(self)@[k] == w,
                None => !old(self)@.contains_key(k),
            },
    {
        let ghost before = self.slots@;
        match self.find(&k) {
            Some(i) => {
                let (_, w) = self.slots.swap_remove(i);
                self.slots.push((k, v));
                proof {
                    let after = self.slots@;
                    let last = before.len() - 1;
                    assert(after =~= before.update(i as int, before[last]).take(last).push((k, v)));
                    swapped_in(before, after, i as int, k, v);
                }
                Some(w)
            },
            None => {
                self.slots.push((k, v));
                proof {
                    appended(before, k, v);
                }
                None
            },
        }
    }

    /// Take a key out; what was there comes back.
    pub fn remove(&mut self, k: &K) -> (r: Option<V>)
        requires
            old(self).wf(),
        ensures
            final(self).wf(),
            final(self)@ == old(self)@.remove(*k),
            match r {
                Some(w) => old(self)@.contains_key(*k) && old(self)@[*k] == w,
                None => !old(self)@.contains_key(*k) && final(self)@ == old(self)@,
            },
    {
        let ghost before = self.slots@;
        match self.find(k) {
            Some(i) => {
                let (_, w) = self.slots.swap_remove(i);
                proof {
                    let last = before.len() - 1;
                    assert(self.slots@ =~= before.update(i as int, before[last]).take(last));
                    taken_out(before, self.slots@, i as int);
                }
                Some(w)
            },
            None => {
                assert(map_of(before).remove(*k) =~= map_of(before));
                None
            },
        }
    }

    pub fn len(&self) -> (n: usize)
        requires
            self.wf(),
        ensures
            n == self.listing().len(),
            n == self@.dom().len(),
    {
        proof {
            self.listing_is_complete();
        }
        self.slots.len()
    }

    /// The key at a place of the listing.
    pub fn key_at(&self, i: usize) -> (k: K)
        requires
            self.wf(),
            i < self.listing().len(),
        ensures
            k == self.listing()[i as int].0,
    {
        self.slots[i].0
    }

    /// The value at a place of the listing.
    pub fn value_at(&self, i: usize) -> (v: &V)
        requires
            self.wf(),
            i < self.listing().len(),
        ensures
            *v == self.listing()[i as int].1,
    {
        &self.slots[i].1
    }
}

pub proof fn slots_hold<K, V>(slots: Seq<(K, V)>)
    requires
        distinct_keys(slots),
    ensures
        forall|i: int|
            0 <= i < slots.len() ==> map_of(slots).contains_key((#[trigger] slots[i]).0) && map_of(
                slots,
            )[slots[i].0] == slots[i].1,
{
    assert forall|i: int| 0 <= i < slots.len() implies map_of(slots).contains_key(
        (#[trigger] slots[i]).0,
    ) && map_of(slots)[slots[i].0] == slots[i].1 by {
        let k = slots[i].0;
        let j = choose|j: int| 0 <= j < slots.len() && #[trigger] slots[j].0 == k;
        assert(slots[i].0 == k);
        assert(slots[j].0 == k);
    }
}

pub proof fn map_is_finite<K, V>(slots: Seq<(K, V)>)
    requires
        distinct_keys(slots),
    ensures
        map_of(slots).dom().finite(),
        map_of(slots).dom().len() == slots.len(),
{
    let keys = slots.map_values(|s: (K, V)| s.0);
    assert(keys.no_duplicates()) by {
        assert forall|i: int, j: int| 0 <= i < keys.len() && 0 <= j < keys.len() && i != j implies
            keys[i] != keys[j] by {
            assert(slots[i].0 != slots[j].0);
        }
    }
    keys.unique_seq_to_set();
    vstd::seq_lib::seq_to_set_is_finite(keys);
    assert(keys.to_set() =~= map_of(slots).dom()) by {
        assert forall|k: K| keys.to_set().contains(k) implies map_of(slots).dom().contains(k) by {
            let i = choose|i: int| 0 <= i < keys.len() && keys[i] == k;
            assert(slots[i].0 == k);
        }
        assert forall|k: K| map_of(slots).dom().contains(k) implies keys.to_set().contains(k) by {
            let i = choose|i: int| 0 <= i < slots.len() && #[trigger] slots[i].0 == k;
            assert(keys[i] == k);
        }
    }
}

pub proof fn appended<K, V>(slots: Seq<(K, V)>, k: K, v: V)
    requires
        distinct_keys(slots),
        !map_of(slots).contains_key(k),
    ensures
        distinct_keys(slots.push((k, v))),
        map_of(slots.push((k, v))) == map_of(slots).insert(k, v),
{
    let after = slots.push((k, v));
    assert forall|i: int| 0 <= i < slots.len() implies (#[trigger] slots[i]).0 != k by {}
    assert(distinct_keys(after)) by {
        assert forall|i: int, j: int|
            0 <= i < after.len() && 0 <= j < after.len() && i != j implies (
        #[trigger] after[i]).0 != (#[trigger] after[j]).0 by {
            if i < slots.len() {
                assert(after[i] == slots[i]);
            }
            if j < slots.len() {
                assert(after[j] == slots[j]);
            }
        }
    }
    slots_hold(slots);
    slots_hold(after);
    let a = map_of(after);
    let b = map_of(slots).insert(k, v);
    assert forall|x: K| a.contains_key(x) == b.contains_key(x) by {
        if a.contains_key(x) {
            let i = choose|i: int| 0 <= i < after.len() && #[trigger] after[i].0 == x;
            if i < slots.len() {
                assert(slots[i].0 == x);
            }
        }
        if b.contains_key(x) {
            if x == k {
                assert(after[slots.len() as int].0 == k);
            } else {
                let i = choose|i: int| 0 <= i < slots.len() && #[trigger] slots[i].0 == x;
                assert(after[i].0 == x);
            }
        }
    }
    assert forall|x: K| a.contains_key(x) implies a[x] == b[x] by {
        let i = choose|i: int| 0 <= i < after.len() && #[trigger] after[i].0 == x;
        assert(a[after[i].0] == after[i].1);
        if i < slots.len() {
            assert(after[i] == slots[i]);
            assert(map_of(slots)[slots[i].0] == slots[i].1);
        }
    }
    assert(a =~= b);
}

pub proof fn taken_out<K, V>(before: Seq<(K, V)>, after: Seq<(K, V)>, at: int)
    requires
        distinct_keys(before),
        0 <= at < before.len(),
        after == before.update(at, before[before.len() - 1]).take(before.len() - 1),
    ensures
        distinct_keys(after),
        map_of(after) == map_of(before).remove(before[at].0),
{
    let last = before.len() - 1;
    assert forall|i: int| 0 <= i < after.len() implies (#[trigger] after[i]) == before[if i == at {
        last
    } else {
        i
    }] by {}
    assert(distinct_keys(after)) by {
        assert forall|i: int, j: int|
            0 <= i < after.len() && 0 <= j < after.len() && i != j implies (
        #[trigger] after[i]).0 != (#[trigger] after[j]).0 by {
            let x = if i == at {
                last
            } else {
                i
            };
            let y = if j == at {
                last
            } else {
                j
            };
            assert(before[x].0 != before[y].0);
        }
    }
    slots_hold(before);
    slots_hold(after);
    let a = map_of(after);
    let b = map_of(before).remove(before[at].0);
    assert forall|x: K| a.contains_key(x) == b.contains_key(x) by {
        if a.contains_key(x) {
            let i = choose|i: int| 0 <= i < after.len() && #[trigger] after[i].0 == x;
            let o = if i == at {
                last
            } else {
                i
            };
            assert(before[o].0 == x);
            assert(before[o].0 != before[at].0);
        }
        if b.contains_key(x) {
            let o = choose|o: int| 0 <= o < before.len() && #[trigger] before[o].0 == x;
            if o == last {
                assert(after[at].0 == x);
            } else {
                assert(after[o].0 == x);
            }
        }
    }
    assert forall|x: K| a.contains_key(x) implies a[x] == b[x] by {
        let i = choose|i: int| 0 <= i < after.len() && #[trigger] after[i].0 == x;
        assert(a[after[i].0] == after[i].1);
        let o = if i == at {
            last
        } else {
            i
        };
        assert(map_of(before)[before[o].0] == before[o].1);
    }
    assert(a =~= b);
}

pub proof fn swapped_in<K, V>(before: Seq<(K, V)>, after: Seq<(K, V)>, at: int, k: K, v: V)
    requires
        distinct_keys(before),
        0 <= at < before.len(),
        before[at].0 == k,
        after == before.update(at, before[before.len() - 1]).take(before.len() - 1).push((k, v)),
    ensures
        distinct_keys(after),
        map_of(after) == map_of(before).insert(k, v),
{
    let mid = before.update(at, before[before.len() - 1]).take(before.len() - 1);
    taken_out(before, mid, at);
    appended(mid, k, v);
    assert(map_of(before).remove(k).insert(k, v) =~= map_of(before).insert(k, v));
}

} // verus!
