//! Composites that fold item by item: what a pixel's values come to is
//! carried on from one wave of items to the next, without holding the
//! values.

use vstd::prelude::*;

use crate::chunk::RasterChunk;
use crate::composite;
use crate::number;
use crate::number::Real;
use crate::ranks;
use crate::stac::Composite;
use crate::zonal;
use crate::zonal::PixelStatistics;

verus! {

/// What a pixel's finite values come to so far.
#[derive(Clone, Copy, Debug)]
pub struct Running {
    pub statistics: PixelStatistics,
    /// The mean so far, and the sum of the squared distances from it.
    pub spread: (Real, Real),
}

/// What no value comes to.
pub open spec fn nothing() -> Running {
    Running {
        statistics: zonal::no_pixels(),
        spread: (Real { bits: 0 }, Real { bits: 0 }),
    }
}

/// What the step that is handed in makes of a mean and its squared
/// distances, with the `n`-th value.
pub open spec fn stepped<S: Fn(usize, (Real, Real), Real) -> (Real, Real)>(
    step: S,
    n: usize,
    spread: (Real, Real),
    v: Real,
) -> (Real, Real) {
    choose|r: (Real, Real)| step.ensures((n, spread, v), r)
}

/// The step can be taken from anywhere, and always to one place.
pub open spec fn is_stepping<S: Fn(usize, (Real, Real), Real) -> (Real, Real)>(step: S) -> bool {
    &&& forall|n: usize, s: (Real, Real), v: Real| #[trigger] step.requires((n, s, v))
    &&& forall|n: usize, s: (Real, Real), v: Real, a: (Real, Real), b: (Real, Real)| #[trigger]
        step.ensures((n, s, v), a) && #[trigger] step.ensures((n, s, v), b) ==> a == b
}

/// A fold with one more value.
pub open spec fn with_value<
    P: Fn(Real, Real) -> Real,
    S: Fn(usize, (Real, Real), Real) -> (Real, Real),
>(r: Running, v: Real, plus: P, step: S) -> Running {
    let statistics = zonal::with_pixel(r.statistics, v, plus);
    Running { statistics, spread: stepped(step, statistics.count, r.spread, v) }
}

/// A fold carried on over values, in order.
pub open spec fn folded<
    P: Fn(Real, Real) -> Real,
    S: Fn(usize, (Real, Real), Real) -> (Real, Real),
>(r: Running, vals: Seq<Real>, plus: P, step: S) -> Running
    decreases vals.len(),
{
    if vals.len() == 0 {
        r
    } else {
        with_value(folded(r, vals.drop_last(), plus, step), vals.last(), plus, step)
    }
}

impl Running {
    pub fn new() -> (r: Running)
        ensures
            r == nothing(),
    {
        Running {
            statistics: PixelStatistics::default(),
            spread: (Real::zero(), Real::zero()),
        }
    }

    /// Take one more value in.
    pub fn take_value<
        P: Fn(Real, Real) -> Real,
        S: Fn(usize, (Real, Real), Real) -> (Real, Real),
    >(&mut self, v: Real, plus: &P, step: &S)
        requires
            zonal::is_adding(*plus),
            is_stepping(*step),
            old(self).statistics.count < usize::MAX,
        ensures
            *final(self) == with_value(*old(self), v, *plus, *step),
    {
        self.statistics.take_pixel(v, plus);
        let n: usize = self.statistics.count;
        let from = self.spread;
        let to = step(n, from, v);
        assert(step.ensures((n, from, v), to));
        self.spread = to;
    }
}

/// A plane of folds, one per pixel, before any item.
pub fn start_plane(pixels: usize) -> (r: Vec<Running>)
    ensures
        r@ == Seq::new(pixels as nat, |p: int| nothing()),
{
    let mut r: Vec<Running> = Vec::new();
    for p in 0..pixels
        invariant
            r@ == Seq::new(p as nat, |q: int| nothing()),
    {
        r.push(Running::new());
        assert(r@ =~= Seq::new((p + 1) as nat, |q: int| nothing()));
    }
    r
}

/// No pixel of a plane has taken more than so many values in.
pub open spec fn counts_below(plane: Seq<Running>, n: int) -> bool {
    forall|p: int| 0 <= p < plane.len() ==> (#[trigger] plane[p]).statistics.count <= n
}

/// A pixel's fold with the value of one more item, where it has one.
pub open spec fn carried_on<
    P: Fn(Real, Real) -> Real,
    S: Fn(usize, (Real, Real), Real) -> (Real, Real),
>(r: Running, v: Real, plus: P, step: S) -> Running {
    if v.finite() {
        with_value(r, v, plus, step)
    } else {
        r
    }
}

fn fold_item<
    P: Fn(Real, Real) -> Real,
    S: Fn(usize, (Real, Real), Real) -> (Real, Real),
>(plane: &mut Vec<Running>, data: &Vec<Real>, plus: &P, step: &S)
    requires
        zonal::is_adding(*plus),
        is_stepping(*step),
        data@.len() >= old(plane)@.len(),
        counts_below(old(plane)@, usize::MAX - 1),
    ensures
        final(plane)@ == Seq::new(
            old(plane)@.len(),
            |p: int| carried_on(old(plane)@[p], data@[p], *plus, *step),
        ),
{
    let ghost before = plane@;
    let ghost after = Seq::new(
        before.len(),
        |p: int| carried_on(before[p], data@[p], *plus, *step),
    );
    let n: usize = plane.len();
    for p in 0..n
        invariant
            n == before.len(),
            plane@.len() == n,
            data@.len() >= n,
            zonal::is_adding(*plus),
            is_stepping(*step),
            counts_below(before, usize::MAX - 1),
            after == Seq::new(
                before.len(),
                |p: int| carried_on(before[p], data@[p], *plus, *step),
            ),
            forall|q: int| 0 <= q < p ==> #[trigger] plane@[q] == after[q],
            forall|q: int| p <= q < n ==> #[trigger] plane@[q] == before[q],
    {
        let v = data[p];
        if v.is_finite() {
            let mut r = plane[p];
            assert(before[p as int].statistics.count <= usize::MAX - 1);
            r.take_value(v, plus, step);
            plane.set(p, r);
        }
    }
    assert(plane@ =~= after);
}

/// Carry a plane of folds on over a band of a wave of items, in order.
pub fn fold_wave<
    P: Fn(Real, Real) -> Real,
    S: Fn(usize, (Real, Real), Real) -> (Real, Real),
>(plane: &mut Vec<Running>, chunks: &Vec<RasterChunk>, band: usize, plus: &P, step: &S)
    requires
        zonal::is_adding(*plus),
        is_stepping(*step),
        forall|k: int|
            0 <= k < chunks@.len() ==> band < (#[trigger] chunks@[k]).bands@.len()
                && chunks@[k].bands@[band as int].data@.len() >= old(plane)@.len(),
        counts_below(old(plane)@, usize::MAX - chunks@.len()),
    ensures
        final(plane)@ == Seq::new(
            old(plane)@.len(),
            |p: int|
                folded(
                    old(plane)@[p],
                    composite::stack_at(chunks@, band as int, p, chunks@.len() as int),
                    *plus,
                    *step,
                ),
        ),
{
    let ghost before = plane@;
    let n: usize = chunks.len();
    assert(plane@ =~= Seq::new(
        before.len(),
        |p: int|
            folded(before[p], composite::stack_at(chunks@, band as int, p, 0), *plus, *step),
    ));
    for k in 0..n
        invariant
            n == chunks@.len(),
            zonal::is_adding(*plus),
            is_stepping(*step),
            forall|k: int|
                0 <= k < chunks@.len() ==> band < (#[trigger] chunks@[k]).bands@.len()
                    && chunks@[k].bands@[band as int].data@.len() >= before.len(),
            counts_below(before, usize::MAX - chunks@.len()),
            plane@.len() == before.len(),
            counts_below(plane@, usize::MAX - chunks@.len() + k),
            plane@ == Seq::new(
                before.len(),
                |p: int|
                    folded(
                        before[p],
                        composite::stack_at(chunks@, band as int, p, k as int),
                        *plus,
                        *step,
                    ),
            ),
    {
        let ghost so_far = plane@;
        let len: usize = chunks.len();
        assert(k < len);
        assert(counts_below(plane@, usize::MAX - 1)) by {
            assert forall|p: int| 0 <= p < plane@.len() implies (
            #[trigger] plane@[p]).statistics.count <= usize::MAX - 1 by {}
        }
        fold_item(plane, &chunks[k].bands[band].data, plus, step);
        proof {
            assert forall|p: int| 0 <= p < before.len() implies plane@[p] == #[trigger] folded(
                before[p],
                composite::stack_at(chunks@, band as int, p, k + 1),
                *plus,
                *step,
            ) by {
                let stack = composite::stack_at(chunks@, band as int, p, k as int);
                let next = composite::stack_at(chunks@, band as int, p, k + 1);
                let v = chunks@[k as int].bands@[band as int].data@[p];
                if v.finite() {
                    assert(next.drop_last() =~= stack);
                }
                assert(so_far[p] == folded(before[p], stack, *plus, *step));
            }
            assert(plane@ =~= Seq::new(
                before.len(),
                |p: int|
                    folded(
                        before[p],
                        composite::stack_at(chunks@, band as int, p, k + 1),
                        *plus,
                        *step,
                    ),
            ));
            assert forall|p: int| 0 <= p < plane@.len() implies (
            #[trigger] plane@[p]).statistics.count <= usize::MAX - chunks@.len() + k + 1 by {
                assert(so_far[p].statistics.count <= usize::MAX - chunks@.len() + k);
            }
        }
    }
}

/// What a fold comes to, as far as it is a value. The rest is arithmetic on
/// what is handed out.
#[derive(Clone, Copy, Debug, PartialEq, Eq, Structural)]
pub enum Folded {
    Value(Real),
    /// How many values there are.
    Count(usize),
    /// This sum over so many.
    Mean(Real, usize),
    /// The root of this sum of squares over so many.
    StdDev(Real, usize),
}

/// What a fold comes to. The other composites need every value at once.
pub open spec fn outcome(r: Running, op: Composite) -> Option<Folded> {
    let s = r.statistics;
    match op {
        Composite::Mean => Some(
            if s.count == 0 {
                Folded::Value(zonal::no_number())
            } else {
                Folded::Mean(s.sum, s.count)
            },
        ),
        Composite::Min => Some(Folded::Value(s.minimum)),
        Composite::Max => Some(Folded::Value(s.maximum)),
        Composite::StdDev => Some(
            if s.count == 0 {
                Folded::Value(zonal::no_number())
            } else {
                Folded::StdDev(r.spread.1, s.count)
            },
        ),
        Composite::Count => Some(
            if s.count == 0 {
                Folded::Value(zonal::no_number())
            } else {
                Folded::Count(s.count)
            },
        ),
        _ => None,
    }
}

impl Running {
    /// What the fold comes to, for a composite that folds.
    pub fn finish(&self, op: Composite) -> (r: Option<Folded>)
        ensures
            r == outcome(*self, op),
    {
        let s = self.statistics;
        let none = Folded::Value(Real::not_a_number());
        match op {
            Composite::Mean => Some(
                if s.count == 0 {
                    none
                } else {
                    Folded::Mean(s.sum, s.count)
                },
            ),
            Composite::Min => Some(Folded::Value(s.minimum)),
            Composite::Max => Some(Folded::Value(s.maximum)),
            Composite::StdDev => Some(
                if s.count == 0 {
                    none
                } else {
                    Folded::StdDev(self.spread.1, s.count)
                },
            ),
            Composite::Count => Some(
                if s.count == 0 {
                    none
                } else {
                    Folded::Count(s.count)
                },
            ),
            _ => None,
        }
    }
}

/// Whether a composite folds item by item.
pub fn folds(op: Composite) -> (r: bool)
    ensures
        r == (op is Mean || op is Min || op is Max || op is StdDev || op is Count),
{
    match op {
        Composite::Mean | Composite::Min | Composite::Max | Composite::StdDev | Composite::Count => true,
        _ => false,
    }
}

// Laws.

/// How items are split into waves does not matter.
pub proof fn folding_in_waves<
    P: Fn(Real, Real) -> Real,
    S: Fn(usize, (Real, Real), Real) -> (Real, Real),
>(r: Running, first: Seq<Real>, second: Seq<Real>, plus: P, step: S)
    ensures
        folded(folded(r, first, plus, step), second, plus, step) == folded(
            r,
            first + second,
            plus,
            step,
        ),
    decreases second.len(),
{
    if second.len() == 0 {
        assert(first + second =~= first);
    } else {
        folding_in_waves(r, first, second.drop_last(), plus, step);
        assert((first + second).drop_last() =~= first + second.drop_last());
    }
}

/// A fold counts the values, and its least and greatest are those of the
/// whole stack.
pub proof fn a_fold_is_the_stack<
    P: Fn(Real, Real) -> Real,
    S: Fn(usize, (Real, Real), Real) -> (Real, Real),
>(vals: Seq<Real>, plus: P, step: S)
    requires
        vals.len() <= usize::MAX,
        forall|i: int| 0 <= i < vals.len() ==> (#[trigger] vals[i]).finite(),
    ensures
        ({
            let s = folded(nothing(), vals, plus, step).statistics;
            &&& s.count == vals.len()
            &&& vals.len() > 0 ==> {
                &&& s.minimum == ranks::least(vals, Real { bits: number::INFINITY_BITS })
                &&& s.maximum == ranks::greatest(
                    vals,
                    Real { bits: (number::INFINITY_BITS + number::SIGN_BIT) as u64 },
                )
                &&& s.minimum.finite()
                &&& s.maximum.finite()
            }
        }),
    decreases vals.len(),
{
    if vals.len() > 0 {
        let rest = vals.drop_last();
        assert forall|i: int| 0 <= i < rest.len() implies (#[trigger] rest[i]).finite() by {
            assert(rest[i] == vals[i]);
        }
        a_fold_is_the_stack(rest, plus, step);
        assert(vals[vals.len() - 1].finite());
        let top = Real { bits: number::INFINITY_BITS };
        let bottom = Real { bits: (number::INFINITY_BITS + number::SIGN_BIT) as u64 };
        assert(bottom.bits == number::INFINITY_BITS + number::SIGN_BIT);
        assert(top.place() == number::INFINITY_BITS && bottom.place() == -number::INFINITY_BITS);
        let v = vals.last();
        assert(-number::INFINITY_BITS < v.place() < number::INFINITY_BITS);
        assert(v.finite() && !v.nan());
        let before = folded(nothing(), rest, plus, step).statistics;
        let after = folded(nothing(), vals, plus, step).statistics;
        assert(after == zonal::with_pixel(before, v, plus));
        assert(ranks::least(vals, top) == ranks::least(rest, top).smaller(v));
        assert(ranks::greatest(vals, bottom) == ranks::greatest(rest, bottom).larger(v));
        if rest.len() == 0 {
            assert(before == zonal::no_pixels());
            assert(before.minimum.nan() && before.maximum.nan());
            assert(top.smaller(v) == v && bottom.larger(v) == v);
        }
    }
}

/// Composites that are one of the values come to the same, folded or
/// reduced over the whole stack.
pub proof fn folding_gives_what_reducing_gives<
    P: Fn(Real, Real) -> Real,
    S: Fn(usize, (Real, Real), Real) -> (Real, Real),
>(vals: Seq<Real>, op: Composite, r: composite::Reduced, plus: P, step: S)
    requires
        vals.len() <= usize::MAX,
        forall|i: int| 0 <= i < vals.len() ==> (#[trigger] vals[i]).finite(),
        composite::is_reduced(r, vals, op),
    ensures
        ({
            let out = outcome(folded(nothing(), vals, plus, step), op);
            match r {
                composite::Reduced::Value(v) => (op is Min || op is Max || op is Count
                    || op is Mean || op is StdDev) ==> out == Some(Folded::Value(v)),
                composite::Reduced::Count(n) => out == Some(Folded::Count(n)),
                _ => true,
            }
        }),
{
    a_fold_is_the_stack(vals, plus, step);
    if vals.len() == 0 {
        assert(folded(nothing(), vals, plus, step) == nothing());
    }
}

} // verus!
