//! What the items over a window come to, pixel by pixel.

use vstd::prelude::*;

use crate::chunk::RasterChunk;
use crate::composite;
use crate::composite::Reduced;
use crate::number::Real;
use crate::ranks;
use crate::stac::Composite;

verus! {

/// What a chunk holds in a band at a pixel.
pub open spec fn at(c: RasterChunk, b: int, p: int) -> Real {
    c.bands@[b].data@[p]
}

/// Every chunk has a pixel in a band.
pub open spec fn all_have(chunks: Seq<RasterChunk>, b: int, p: int) -> bool {
    forall|i: int|
        0 <= i < chunks.len() ==> 0 <= b < (#[trigger] chunks[i]).bands@.len() && 0 <= p
            < chunks[i].bands@[b].data@.len()
}

proof fn gaps_are_filled(own: Real, rest: Seq<RasterChunk>, b: int, p: int, i: int, k: int)
    requires
        0 <= b,
        0 <= p,
        all_have(rest, b, p),
        0 <= k <= rest.len(),
        -1 <= i < k,
        i >= 0 ==> own.nan() && !at(rest[i], b, p).nan(),
        forall|j: int| 0 <= j < i ==> at(#[trigger] rest[j], b, p).nan(),
        i < 0 ==> own.nan() && forall|j: int| 0 <= j < k ==> at(#[trigger] rest[j], b, p).nan(),
    ensures
        i >= 0 ==> composite::filled(own, rest, b, p, k) == at(rest[i], b, p),
        i < 0 ==> composite::filled(own, rest, b, p, k).nan(),
    decreases k,
{
    if k > 0 {
        let c = rest[k - 1];
        if i == k - 1 {
            gaps_are_filled(own, rest, b, p, -1, k - 1);
            assert(c.bands@[b].data@[p] == at(rest[i], b, p));
        } else {
            gaps_are_filled(own, rest, b, p, i, k - 1);
            if i < 0 {
                assert(at(rest[k - 1], b, p).nan());
            }
        }
    }
}

/// The newest value wins: of chunks in order, every pixel of every band is
/// that of the first chunk that has a number there.
pub proof fn the_newest_number_shows(
    m: RasterChunk,
    all: Seq<RasterChunk>,
    b: int,
    p: int,
    i: int,
)
    requires
        0 <= i < all.len(),
        all_have(all, b, p),
        composite::is_filling(m, all[0], all.skip(1), all.len() - 1),
        forall|j: int| 0 <= j < i ==> at(#[trigger] all[j], b, p).nan(),
        !at(all[i], b, p).nan(),
    ensures
        m.width == all[0].width,
        m.height == all[0].height,
        m.place == all[0].place,
        m.bands@.len() == all[0].bands@.len(),
        m.bands@[b].nodata == all[0].bands@[b].nodata,
        at(m, b, p) == at(all[i], b, p),
{
    let rest = all.skip(1);
    let own = at(all[0], b, p);
    assert(all_have(rest, b, p)) by {
        assert forall|j: int| 0 <= j < rest.len() implies 0 <= b < (#[trigger] rest[j]).bands@.len()
            && 0 <= p < rest[j].bands@[b].data@.len() by {
            assert(rest[j] == all[j + 1]);
        }
    }
    assert(m.bands@[b].data@[p] == composite::filled(own, rest, b, p, rest.len() as int));
    if i == 0 {
        assert(composite::filled(own, rest, b, p, 0) == own);
        composite::newer_values_stay(own, rest, b, p, 0, rest.len() as int);
    } else {
        assert(own.nan()) by {
            assert(at(all[0], b, p).nan());
        }
        assert forall|j: int| 0 <= j < i - 1 implies at(#[trigger] rest[j], b, p).nan() by {
            assert(at(all[j + 1], b, p).nan());
        }
        assert(rest[i - 1] == all[i]);
        gaps_are_filled(own, rest, b, p, i - 1, rest.len() as int);
    }
}

/// A pixel is no number only where every chunk has none.
pub proof fn a_gap_stays_where_nobody_has_a_number(
    m: RasterChunk,
    all: Seq<RasterChunk>,
    b: int,
    p: int,
)
    requires
        all.len() > 0,
        all_have(all, b, p),
        composite::is_filling(m, all[0], all.skip(1), all.len() - 1),
    ensures
        at(m, b, p).nan() == (forall|j: int|
            0 <= j < all.len() ==> at(#[trigger] all[j], b, p).nan()),
{
    let rest = all.skip(1);
    let own = at(all[0], b, p);
    if forall|j: int| 0 <= j < all.len() ==> at(#[trigger] all[j], b, p).nan() {
        assert(at(all[0], b, p).nan());
        assert(all_have(rest, b, p)) by {
            assert forall|j: int| 0 <= j < rest.len() implies 0 <= b < (
            #[trigger] rest[j]).bands@.len() && 0 <= p < rest[j].bands@[b].data@.len() by {
                assert(rest[j] == all[j + 1]);
            }
        }
        assert forall|j: int| 0 <= j < rest.len() implies at(#[trigger] rest[j], b, p).nan() by {
            assert(at(all[j + 1], b, p).nan());
        }
        gaps_are_filled(own, rest, b, p, -1, rest.len() as int);
        assert(m.bands@[b].data@[p] == composite::filled(own, rest, b, p, rest.len() as int));
    } else {
        let i = first_number(all, b, p, 0);
        the_newest_number_shows(m, all, b, p, i);
    }
}

proof fn first_number(all: Seq<RasterChunk>, b: int, p: int, from: int) -> (i: int)
    requires
        0 <= from <= all.len(),
        forall|j: int| 0 <= j < from ==> at(#[trigger] all[j], b, p).nan(),
        exists|j: int| 0 <= j < all.len() && !at(#[trigger] all[j], b, p).nan(),
    ensures
        0 <= i < all.len(),
        !at(all[i], b, p).nan(),
        forall|j: int| 0 <= j < i ==> at(#[trigger] all[j], b, p).nan(),
    decreases all.len() - from,
{
    if from == all.len() {
        assert(false);
        0
    } else if at(all[from], b, p).nan() {
        first_number(all, b, p, from + 1)
    } else {
        from
    }
}

// Stacks.

/// How many of the first `k` chunks hold a number, other than an infinity,
/// at a pixel.
pub open spec fn finite_among(chunks: Seq<RasterChunk>, b: int, p: int, k: int) -> nat
    decreases k,
{
    if k <= 0 {
        0
    } else {
        finite_among(chunks, b, p, k - 1) + (if at(chunks[k - 1], b, p).finite() {
            1nat
        } else {
            0
        })
    }
}

/// The stack of a pixel holds the number of every chunk that has a finite
/// one there, in the order of the chunks: a chunk's number stands behind as
/// many as the chunks before it have.
pub proof fn a_stack_holds_every_finite_number(
    chunks: Seq<RasterChunk>,
    b: int,
    p: int,
    i: int,
    k: int,
)
    requires
        0 <= i < k,
        at(chunks[i], b, p).finite(),
    ensures
        composite::stack_at(chunks, b, p, k).len() == finite_among(chunks, b, p, k),
        finite_among(chunks, b, p, i) < finite_among(chunks, b, p, k),
        composite::stack_at(chunks, b, p, k)[finite_among(chunks, b, p, i) as int] == at(
            chunks[i],
            b,
            p,
        ),
    decreases k,
{
    stack_length(chunks, b, p, k);
    stack_length(chunks, b, p, k - 1);
    if i < k - 1 {
        a_stack_holds_every_finite_number(chunks, b, p, i, k - 1);
    }
}

proof fn stack_length(chunks: Seq<RasterChunk>, b: int, p: int, k: int)
    ensures
        composite::stack_at(chunks, b, p, k).len() == finite_among(chunks, b, p, k),
    decreases k,
{
    if k > 0 {
        stack_length(chunks, b, p, k - 1);
    }
}

/// A stack holds nothing but finite numbers.
pub proof fn a_stack_is_finite(chunks: Seq<RasterChunk>, b: int, p: int, k: int)
    ensures
        forall|i: int|
            0 <= i < composite::stack_at(chunks, b, p, k).len() ==> (#[trigger] composite::stack_at(
                chunks,
                b,
                p,
                k,
            )[i]).finite(),
    decreases k,
{
    if k > 0 {
        a_stack_is_finite(chunks, b, p, k - 1);
        let before = composite::stack_at(chunks, b, p, k - 1);
        let all = composite::stack_at(chunks, b, p, k);
        assert forall|i: int| 0 <= i < all.len() implies (#[trigger] all[i]).finite() by {
            if i < before.len() {
                assert(all[i] == before[i]);
            }
        }
    }
}

/// The least of a stack is one of its numbers and below none of them is any
/// other; the greatest likewise.
pub proof fn extremes_are_extreme(r: Reduced, vals: Seq<Real>, op: Composite)
    requires
        op == Composite::Min || op == Composite::Max,
        vals.len() > 0,
        forall|i: int| 0 <= i < vals.len() ==> (#[trigger] vals[i]).finite(),
        composite::is_reduced(r, vals, op),
    ensures
        r matches Reduced::Value(v) && vals.contains(v) && forall|i: int|
            0 <= i < vals.len() ==> if op == Composite::Min {
                v.place() <= (#[trigger] vals[i]).place()
            } else {
                (#[trigger] vals[i]).place() <= v.place()
            },
{
    let top = Real { bits: crate::number::INFINITY_BITS };
    let bottom = Real { bits: (crate::number::INFINITY_BITS + crate::number::SIGN_BIT) as u64 };
    ranks::extremes_bound_a_stack(vals, top, bottom);
}

/// How many numbers of a stack are at most, or at least, as large as one.
pub open spec fn not_above(vals: Seq<Real>, v: Real) -> nat {
    vals.filter(|x: Real| x.total_place() <= v.total_place()).len()
}

pub open spec fn not_below(vals: Seq<Real>, v: Real) -> nat {
    vals.filter(|x: Real| v.total_place() <= x.total_place()).len()
}

proof fn filter_keeps_counts(a: Seq<Real>, keep: spec_fn(Real) -> bool, x: Real)
    ensures
        a.filter(keep).to_multiset().count(x) == (if keep(x) {
            a.to_multiset().count(x)
        } else {
            0
        }),
    decreases a.len(),
{
    broadcast use vstd::seq_lib::group_to_multiset_ensures;

    reveal(Seq::filter);
    if a.len() > 0 {
        let rest = a.drop_last();
        filter_keeps_counts(rest, keep, x);
        assert(a =~= rest.push(a.last()));
        if keep(a.last()) {
            assert(a.filter(keep) =~= rest.filter(keep).push(a.last()));
        } else {
            assert(a.filter(keep) =~= rest.filter(keep));
        }
    }
}

proof fn filters_are_as_long(a: Seq<Real>, b: Seq<Real>, keep: spec_fn(Real) -> bool)
    requires
        a.to_multiset() == b.to_multiset(),
    ensures
        a.filter(keep).len() == b.filter(keep).len(),
{
    broadcast use vstd::seq_lib::group_to_multiset_ensures;

    let x = a.filter(keep);
    let y = b.filter(keep);
    assert forall|v: Real| x.to_multiset().count(v) == y.to_multiset().count(v) by {
        filter_keeps_counts(a, keep, v);
        filter_keeps_counts(b, keep, v);
    }
    assert(x.to_multiset() =~= y.to_multiset());
    assert(x.to_multiset().len() == x.len());
    assert(y.to_multiset().len() == y.len());
}

proof fn a_prefix_is_kept(s: Seq<Real>, keep: spec_fn(Real) -> bool, n: int)
    requires
        0 <= n <= s.len(),
        forall|i: int| 0 <= i < n ==> keep(#[trigger] s[i]),
    ensures
        s.filter(keep).len() >= n,
    decreases s.len(),
{
    reveal(Seq::filter);
    if s.len() > 0 {
        let rest = s.drop_last();
        if n == s.len() {
            a_prefix_is_kept(rest, keep, n - 1);
            assert(keep(s[n - 1]));
        } else {
            a_prefix_is_kept(rest, keep, n);
        }
    }
}

proof fn a_suffix_is_kept(s: Seq<Real>, keep: spec_fn(Real) -> bool, n: int)
    requires
        0 <= n <= s.len(),
        forall|i: int| n <= i < s.len() ==> keep(#[trigger] s[i]),
    ensures
        s.filter(keep).len() >= s.len() - n,
    decreases s.len(),
{
    reveal(Seq::filter);
    if n < s.len() {
        let rest = s.drop_last();
        assert forall|i: int| n <= i < rest.len() implies keep(#[trigger] rest[i]) by {
            assert(rest[i] == s[i]);
        }
        a_suffix_is_kept(rest, keep, n);
        assert(keep(s[s.len() - 1]));
    }
}

pub(crate) proof fn rank_counts(s: Seq<Real>, vals: Seq<Real>, i: int)
    requires
        ranks::ranked(s),
        s.to_multiset() == vals.to_multiset(),
        0 <= i < s.len(),
    ensures
        not_above(vals, s[i]) >= i + 1,
        not_below(vals, s[i]) >= s.len() - i,
        vals.contains(s[i]),
{
    broadcast use vstd::seq_lib::group_to_multiset_ensures;

    let v = s[i];
    let low = |x: Real| x.total_place() <= v.total_place();
    let high = |x: Real| v.total_place() <= x.total_place();
    a_prefix_is_kept(s, low, i + 1);
    a_suffix_is_kept(s, high, i);
    filters_are_as_long(s, vals, low);
    filters_are_as_long(s, vals, high);
    assert(s.contains(v));
    assert(s.to_multiset().count(v) > 0);
    assert(vals.to_multiset().count(v) > 0);
}

/// The median of an odd stack is a number of it that half of the stack does
/// not pass and half does not fall short of.
pub proof fn the_median_is_in_the_middle(r: Reduced, vals: Seq<Real>)
    requires
        vals.len() > 0,
        composite::is_reduced(r, vals, Composite::Median),
    ensures
        vals.len() % 2 == 1 ==> (r matches Reduced::Value(v) && vals.contains(v) && 2 * not_above(
            vals,
            v,
        ) > vals.len() && 2 * not_below(vals, v) > vals.len()),
        vals.len() % 2 == 0 ==> (r matches Reduced::Halfway(a, b) && vals.contains(a)
            && vals.contains(b) && a.total_place() <= b.total_place() && 2 * not_above(vals, a)
            >= vals.len() && 2 * not_below(vals, b) >= vals.len() && 2 * not_below(vals, a)
            >= vals.len() + 2 && 2 * not_above(vals, b) >= vals.len() + 2),
{
    let n = vals.len() as int;
    let s = choose|s: Seq<Real>| #[trigger]
        ranks::ranked(s) && s.to_multiset() == vals.to_multiset() && s.len() == vals.len() && r == (
        if vals.len() % 2 == 1 {
            Reduced::Value(s[vals.len() as int / 2])
        } else {
            Reduced::Halfway(s[vals.len() as int / 2 - 1], s[vals.len() as int / 2])
        });
    rank_counts(s, vals, n / 2);
    if n % 2 == 0 {
        rank_counts(s, vals, n / 2 - 1);
    }
}

/// A mean and a spread are taken over the whole stack, a count counts it, the
/// latest is the first of it, and without a number there is none.
pub proof fn a_reduction_speaks_of_the_whole_stack(r: Reduced, vals: Seq<Real>, op: Composite)
    requires
        composite::is_reduced(r, vals, op),
        vals.len() <= usize::MAX,
    ensures
        vals.len() == 0 ==> (r matches Reduced::Value(v) && v.nan()),
        vals.len() > 0 && op == Composite::Latest ==> r == Reduced::Value(vals[0]),
        vals.len() > 0 && op == Composite::Count ==> (r matches Reduced::Count(n) && n
            == vals.len()),
        vals.len() > 0 && op == Composite::Mean ==> (r matches Reduced::Mean(v) && v@
            == vals),
        vals.len() > 0 && op == Composite::StdDev ==> (r matches Reduced::StdDev(v) && v@
            == vals),
{
}

/// A percentile is taken of the whole stack, going up, at a percentage
/// between nothing and a hundred that is the one asked for where it can be.
pub proof fn a_percentile_is_taken_of_the_whole_stack(r: Reduced, vals: Seq<Real>, percent: Real)
    requires
        vals.len() > 0,
        composite::is_reduced(r, vals, Composite::Percentile(percent)),
    ensures
        r matches Reduced::Percentile(s, p) && s@.to_multiset() == vals.to_multiset() && (forall|
            i: int,
            j: int,
        |
            0 <= i < j < s@.len() ==> (#[trigger] s@[i]).total_place() <= (
            #[trigger] s@[j]).total_place()) && (!percent.nan() ==> 0 <= p.place()
            <= 0x4059_0000_0000_0000 && (0 <= percent.place() <= 0x4059_0000_0000_0000 ==> p
            == percent) && (percent.place() < 0 ==> p.place() == 0) && (percent.place()
            > 0x4059_0000_0000_0000 ==> p.place() == 0x4059_0000_0000_0000)),
{
}

} // verus!
