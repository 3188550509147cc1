//! What an expression comes to at a pixel.

use vstd::prelude::*;

use crate::band_math::{BinOp, Func};
use crate::formula;
use crate::formula::{Args, Arith, Expr};
use crate::number::Real;

verus! {

/// The number one.
pub open spec fn one() -> Real {
    Real { bits: 0x3ff0_0000_0000_0000 }
}

/// The number zero.
pub open spec fn zero() -> Real {
    Real { bits: 0 }
}

/// Comparisons follow the order of numbers: one where they hold, zero where
/// they do not.
pub proof fn comparisons_follow_the_order<F: Fn(Arith, Real, Real) -> Real>(f: F, a: Real, b: Real)
    requires
        !a.nan(),
        !b.nan(),
    ensures
        ({
            let less = formula::bin_value(f, BinOp::Less, a, b);
            let at_most = formula::bin_value(f, BinOp::LessOrEqual, a, b);
            let more = formula::bin_value(f, BinOp::Greater, a, b);
            let at_least = formula::bin_value(f, BinOp::GreaterOrEqual, a, b);
            let same = formula::bin_value(f, BinOp::Equal, a, b);
            let other = formula::bin_value(f, BinOp::NotEqual, a, b);
            &&& less == (if a.place() < b.place() {
                one()
            } else {
                zero()
            })
            &&& same == (if a.place() == b.place() {
                one()
            } else {
                zero()
            })
            &&& more == formula::bin_value(f, BinOp::Less, b, a)
            &&& at_most == one() || at_most == zero()
            &&& at_least == one() || at_least == zero()
            &&& other == one() || other == zero()
            &&& (at_most == one()) == (less == one() || same == one())
            &&& (at_least == one()) == (more == one() || same == one())
            &&& (other == one()) == (same == zero())
        }),
{
}

/// A sum, a difference, a product or a quotient is what the arithmetic gives
/// for the two values, the left one first.
pub proof fn operators_are_the_arithmetic<F: Fn(Arith, Real, Real) -> Real>(
    f: F,
    a: Real,
    b: Real,
    r: Real,
)
    requires
        formula::is_arithmetic(f),
        !a.nan(),
        !b.nan(),
    ensures
        f.ensures((Arith::Plus, a, b), r) ==> formula::bin_value(f, BinOp::Plus, a, b) == r,
        f.ensures((Arith::Minus, a, b), r) ==> formula::bin_value(f, BinOp::Minus, a, b) == r,
        f.ensures((Arith::Times, a, b), r) ==> formula::bin_value(f, BinOp::Times, a, b) == r,
        f.ensures((Arith::Over, a, b), r) ==> formula::bin_value(f, BinOp::Over, a, b) == r,
{
    asked(f, Arith::Plus, a, b, r);
    asked(f, Arith::Minus, a, b, r);
    asked(f, Arith::Times, a, b, r);
    asked(f, Arith::Over, a, b, r);
}

proof fn asked<F: Fn(Arith, Real, Real) -> Real>(f: F, op: Arith, a: Real, b: Real, r: Real)
    requires
        formula::is_arithmetic(f),
    ensures
        f.ensures((op, a, b), r) ==> formula::computed(f, op, a, b) == r,
{
    if f.ensures((op, a, b), r) {
        let s = formula::computed(f, op, a, b);
        assert(f.ensures((op, a, b), s));
    }
}

/// What is no number stays none under every operator.
pub proof fn no_number_stays_none<F: Fn(Arith, Real, Real) -> Real>(
    f: F,
    op: BinOp,
    a: Real,
    b: Real,
)
    requires
        a.nan() || b.nan(),
    ensures
        formula::bin_value(f, op, a, b).nan(),
{
}

/// The functions of numbers: a root, a power, a logarithm and an exponential
/// are what the arithmetic gives, an absolute value has no sign, and the
/// smaller and the larger of two are one of them.
pub proof fn functions_do_what_they_are_called<F: Fn(Arith, Real, Real) -> Real>(
    f: F,
    a: Real,
    b: Real,
    r: Real,
)
    requires
        formula::is_arithmetic(f),
        !a.nan(),
        !b.nan(),
    ensures
        f.ensures((Arith::Sqrt, a, a), r) ==> formula::call_value(f, Func::Sqrt, seq![a]) == r,
        f.ensures((Arith::Log, a, a), r) ==> formula::call_value(f, Func::Log, seq![a]) == r,
        f.ensures((Arith::Exp, a, a), r) ==> formula::call_value(f, Func::Exp, seq![a]) == r,
        f.ensures((Arith::Pow, a, b), r) ==> formula::call_value(f, Func::Pow, seq![a, b]) == r,
        ({
            let v = formula::call_value(f, Func::Abs, seq![a]);
            !v.nan() && v.place() == (if a.place() < 0 {
                -a.place()
            } else {
                a.place()
            })
        }),
        ({
            let v = formula::call_value(f, Func::Min, seq![a, b]);
            (v == a || v == b) && v.place() <= a.place() && v.place() <= b.place()
        }),
        ({
            let v = formula::call_value(f, Func::Max, seq![a, b]);
            (v == a || v == b) && v.place() >= a.place() && v.place() >= b.place()
        }),
{
    assert(seq![a][0] == a);
    assert(seq![a, b][0] == a && seq![a, b][1] == b);
    assert(!formula::any_nan(seq![a]));
    assert(!formula::any_nan(seq![a, b]));
    asked(f, Arith::Sqrt, a, a, r);
    asked(f, Arith::Log, a, a, r);
    asked(f, Arith::Exp, a, a, r);
    asked(f, Arith::Pow, a, b, r);
}

/// A choice is its second value where the first is not zero, of either sign,
/// and its third where it is.
pub proof fn a_choice_goes_by_its_first_value<F: Fn(Arith, Real, Real) -> Real>(
    f: F,
    c: Real,
    a: Real,
    b: Real,
)
    requires
        !a.nan(),
        !b.nan(),
        !c.nan(),
    ensures
        formula::call_value(f, Func::Where, seq![c, a, b]) == (if c.place() != 0 {
            a
        } else {
            b
        }),
{
    let v = seq![c, a, b];
    assert(v[0] == c && v[1] == a && v[2] == b);
    assert(!formula::any_nan(v));
}

/// A function of values of which one is no number is none.
pub proof fn a_function_of_no_number_is_none<F: Fn(Arith, Real, Real) -> Real>(
    f: F,
    func: Func,
    v: Seq<Real>,
    i: int,
)
    requires
        0 <= i < v.len(),
        v[i].nan(),
    ensures
        formula::call_value(f, func, v).nan(),
{
    assert(formula::any_nan(v));
}

/// A band is its own pixel, a number is itself, a sign turns a value over,
/// and an operator takes its left side first.
pub proof fn a_tree_is_its_parts<F: Fn(Arith, Real, Real) -> Real>(
    f: F,
    bands: Seq<Real>,
    i: usize,
    v: Real,
    op: BinOp,
    a: Expr,
    b: Expr,
)
    requires
        i < bands.len(),
    ensures
        formula::value(Expr::Band(i), bands, f) == bands[i as int],
        formula::value(Expr::Lit(v), bands, f) == v,
        formula::value(Expr::Neg(Box::new(a)), bands, f).place() == -formula::value(
            a,
            bands,
            f,
        ).place(),
        formula::value(Expr::Neg(Box::new(a)), bands, f).nan() == formula::value(
            a,
            bands,
            f,
        ).nan(),
        formula::value(Expr::Bin(op, Box::new(a), Box::new(b)), bands, f) == formula::bin_value(
            f,
            op,
            formula::value(a, bands, f),
            formula::value(b, bands, f),
        ),
{
    assert(formula::value(Expr::Neg(Box::new(a)), bands, f) == formula::value(
        a,
        bands,
        f,
    ).negated());
}

/// A function takes its values in the order in which they are written.
pub proof fn a_call_takes_its_values_in_order<F: Fn(Arith, Real, Real) -> Real>(
    f: F,
    bands: Seq<Real>,
    func: Func,
    a: Expr,
    b: Expr,
    c: Expr,
)
    ensures
        formula::value(Expr::Call(func, Args::Last(Box::new(a))), bands, f) == formula::call_value(
            f,
            func,
            seq![formula::value(a, bands, f)],
        ),
        formula::value(
            Expr::Call(func, Args::More(Box::new(a), Box::new(Args::Last(Box::new(b))))),
            bands,
            f,
        ) == formula::call_value(
            f,
            func,
            seq![formula::value(a, bands, f), formula::value(b, bands, f)],
        ),
        formula::value(
            Expr::Call(
                func,
                Args::More(
                    Box::new(a),
                    Box::new(Args::More(Box::new(b), Box::new(Args::Last(Box::new(c))))),
                ),
            ),
            bands,
            f,
        ) == formula::call_value(
            f,
            func,
            seq![
                formula::value(a, bands, f),
                formula::value(b, bands, f),
                formula::value(c, bands, f),
            ],
        ),
{
    let x = formula::value(a, bands, f);
    let y = formula::value(b, bands, f);
    let z = formula::value(c, bands, f);
    let last = Args::Last(Box::new(c));
    let two = Args::More(Box::new(a), Box::new(Args::Last(Box::new(b))));
    let inner = Args::More(Box::new(b), Box::new(last));
    let three = Args::More(Box::new(a), Box::new(inner));
    assert(formula::values(Args::Last(Box::new(a)), bands, f) == seq![x]);
    assert(formula::values(Args::Last(Box::new(b)), bands, f) == seq![y]);
    assert(formula::values(two, bands, f) =~= seq![x, y]);
    assert(formula::values(last, bands, f) == seq![z]);
    assert(formula::values(inner, bands, f) =~= seq![y, z]);
    assert(formula::values(three, bands, f) =~= seq![x, y, z]);
}

} // verus!
