//! Stacks of numbers in their total order.

use vstd::prelude::*;

use crate::number;
use crate::number::Real;

verus! {

/// A stack goes up in the total order.
pub open spec fn ranked(v: Seq<Real>) -> bool {
    forall|i: int, j: int|
        0 <= i < j < v.len() ==> (#[trigger] v[i]).total_place() <= (#[trigger] v[j]).total_place()
}

/// The numbers of a stack in the total order.
pub fn sort_total(vals: &Vec<Real>) -> (r: Vec<Real>)
    ensures
        ranked(r@),
        r@.len() == vals@.len(),
        r@.to_multiset() == vals@.to_multiset(),
{
    let mut r: Vec<Real> = Vec::new();
    assert(vals@.take(0) =~= r@);
    for i in 0..vals.len()
        invariant
            ranked(r@),
            r@.len() == i,
            r@.to_multiset() == vals@.take(i as int).to_multiset(),
    {
        let v = vals[i];
        let mut p: usize = 0;
        while p < r.len() && !v.total_lt(r[p])
            invariant
                p <= r@.len(),
                ranked(r@),
                forall|k: int| 0 <= k < p ==> (#[trigger] r@[k]).total_place() <= v.total_place(),
            decreases r@.len() - p,
        {
            p = p + 1;
        }
        let ghost before = r@;
        r.insert(p, v);
        proof {
            assert(r@ == before.insert(p as int, v));
            vstd::seq_lib::to_multiset_insert(before, p as int, v);
            assert(vals@.take(i + 1) =~= vals@.take(i as int).push(v));
            vstd::seq_lib::to_multiset_build(vals@.take(i as int), v);
        }
    }
    assert(vals@.take(vals@.len() as int) =~= vals@);
    r
}

/// A stack has one ranking.
pub proof fn rankings_are_one(a: Seq<Real>, b: Seq<Real>)
    requires
        ranked(a),
        ranked(b),
        a.to_multiset() == b.to_multiset(),
    ensures
        a == b,
{
    let leq = |x: Real, y: Real| x.total_place() <= y.total_place();
    assert forall|x: Real, y: Real| #[trigger] leq(x, y) && #[trigger] leq(y, x) implies x == y by {
        number::total_order_separates(x, y);
    }
    assert(vstd::relations::total_ordering(leq));
    assert(vstd::relations::sorted_by(a, leq));
    assert(vstd::relations::sorted_by(b, leq));
    vstd::seq_lib::lemma_sorted_unique(a, b, leq);
}

/// The least of a stack and a bound.
pub open spec fn least(v: Seq<Real>, bound: Real) -> Real
    decreases v.len(),
{
    if v.len() == 0 {
        bound
    } else {
        least(v.drop_last(), bound).smaller(v.last())
    }
}

/// The greatest of a stack and a bound.
pub open spec fn greatest(v: Seq<Real>, bound: Real) -> Real
    decreases v.len(),
{
    if v.len() == 0 {
        bound
    } else {
        greatest(v.drop_last(), bound).larger(v.last())
    }
}

/// The least number of a stack, taken together with a bound.
pub fn least_of(v: &Vec<Real>, bound: Real) -> (r: Real)
    ensures
        r == least(v@, bound),
{
    let mut r = bound;
    assert(v@.take(0) =~= Seq::empty());
    for i in 0..v.len()
        invariant
            r == least(v@.take(i as int), bound),
    {
        r = r.min(v[i]);
        assert(v@.take(i + 1).drop_last() =~= v@.take(i as int));
    }
    assert(v@.take(v@.len() as int) =~= v@);
    r
}

/// The greatest number of a stack, taken together with a bound.
pub fn greatest_of(v: &Vec<Real>, bound: Real) -> (r: Real)
    ensures
        r == greatest(v@, bound),
{
    let mut r = bound;
    assert(v@.take(0) =~= Seq::empty());
    for i in 0..v.len()
        invariant
            r == greatest(v@.take(i as int), bound),
    {
        r = r.max(v[i]);
        assert(v@.take(i + 1).drop_last() =~= v@.take(i as int));
    }
    assert(v@.take(v@.len() as int) =~= v@);
    r
}

/// The least and the greatest of a stack of finite numbers are numbers of
/// the stack, and bound it.
pub proof fn extremes_bound_a_stack(v: Seq<Real>, lo: Real, hi: Real)
    requires
        v.len() > 0,
        forall|i: int| 0 <= i < v.len() ==> (#[trigger] v[i]).finite(),
        lo == (Real { bits: number::INFINITY_BITS }),
        hi == (Real { bits: (number::INFINITY_BITS + number::SIGN_BIT) as u64 }),
    ensures
        v.contains(least(v, lo)),
        v.contains(greatest(v, hi)),
        forall|i: int|
            0 <= i < v.len() ==> least(v, lo).at_most(#[trigger] v[i]) && v[i].at_most(
                greatest(v, hi),
            ),
    decreases v.len(),
{
    let front = v.drop_last();
    assert(v[v.len() - 1] == v.last());
    if front.len() > 0 {
        extremes_bound_a_stack(front, lo, hi);
        let a = least(front, lo);
        let b = greatest(front, hi);
        let p = choose|p: int| 0 <= p < front.len() && front[p] == a;
        let q = choose|q: int| 0 <= q < front.len() && front[q] == b;
        assert(v[p] == a && v[q] == b);
        assert forall|i: int| 0 <= i < v.len() implies least(v, lo).at_most(#[trigger] v[i])
            && v[i].at_most(greatest(v, hi)) by {
            if i < front.len() {
                assert(front[i] == v[i]);
            }
        }
    } else {
        assert(least(front, lo) == lo);
        assert(greatest(front, hi) == hi);
    }
}

} // verus!
