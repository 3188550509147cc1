//! Sums of natural numbers over finite sets.

use vstd::prelude::*;

verus! {

/// The sum of a weight over a finite set.
pub open spec fn total<K>(s: Set<K>, f: spec_fn(K) -> nat) -> nat
    decreases s.len(),
    when s.finite()
{
    if s.len() == 0 {
        0
    } else {
        let k = s.choose();
        f(k) + total(s.remove(k), f)
    }
}

/// Any element can be taken out first.
pub proof fn take_one<K>(s: Set<K>, f: spec_fn(K) -> nat, k: K)
    requires
        s.finite(),
        s.contains(k),
    ensures
        total(s, f) == f(k) + total(s.remove(k), f),
    decreases s.len(),
{
    let c = s.choose();
    if c != k {
        let rest = s.remove(c);
        take_one(rest, f, k);
        let other = s.remove(k);
        assert(rest.remove(k) =~= other.remove(c));
        take_one(other, f, c);
    }
}

/// Only the weights inside the set count.
pub proof fn same_weights<K>(s: Set<K>, f: spec_fn(K) -> nat, g: spec_fn(K) -> nat)
    requires
        s.finite(),
        forall|k: K| s.contains(k) ==> #[trigger] f(k) == g(k),
    ensures
        total(s, f) == total(s, g),
    decreases s.len(),
{
    if s.len() > 0 {
        let c = s.choose();
        assert(f(c) == g(c));
        same_weights(s.remove(c), f, g);
    }
}

/// Where nothing weighs anything, the sum is zero.
pub proof fn no_weight<K>(s: Set<K>, f: spec_fn(K) -> nat)
    requires
        s.finite(),
        forall|k: K| s.contains(k) ==> #[trigger] f(k) == 0,
    ensures
        total(s, f) == 0,
    decreases s.len(),
{
    if s.len() > 0 {
        let c = s.choose();
        assert(f(c) == 0);
        no_weight(s.remove(c), f);
    }
}

/// The sum of a weight over the entries of a map.
pub open spec fn map_total<K, V>(m: Map<K, V>, w: spec_fn(V) -> nat) -> nat {
    total(m.dom(), |k: K| w(m[k]))
}

pub proof fn map_total_empty<K, V>(w: spec_fn(V) -> nat)
    ensures
        map_total(Map::<K, V>::empty(), w) == 0,
{
}

/// An entry's share of the sum.
pub proof fn map_total_remove<K, V>(m: Map<K, V>, w: spec_fn(V) -> nat, k: K)
    requires
        m.dom().finite(),
        m.contains_key(k),
    ensures
        map_total(m, w) == w(m[k]) + map_total(m.remove(k), w),
        m.remove(k).dom().finite(),
{
    let f = |x: K| w(m[x]);
    let g = |x: K| w(m.remove(k)[x]);
    take_one(m.dom(), f, k);
    assert(m.remove(k).dom() =~= m.dom().remove(k));
    same_weights(m.dom().remove(k), f, g);
}

/// A new entry's share of the sum.
pub proof fn map_total_insert<K, V>(m: Map<K, V>, w: spec_fn(V) -> nat, k: K, v: V)
    requires
        m.dom().finite(),
    ensures
        map_total(m.insert(k, v), w) == w(v) + map_total(m.remove(k), w),
        m.insert(k, v).dom().finite(),
        !m.contains_key(k) ==> map_total(m.remove(k), w) == map_total(m, w),
{
    assert(m.insert(k, v).dom() =~= m.dom().insert(k));
    map_total_remove(m.insert(k, v), w, k);
    assert(m.insert(k, v).remove(k) =~= m.remove(k));
    if !m.contains_key(k) {
        assert(m.remove(k) =~= m);
    }
}

/// An entry is no larger than the sum.
pub proof fn map_total_bounds<K, V>(m: Map<K, V>, w: spec_fn(V) -> nat, k: K)
    requires
        m.dom().finite(),
        m.contains_key(k),
    ensures
        w(m[k]) <= map_total(m, w),
{
    map_total_remove(m, w, k);
}

} // verus!
