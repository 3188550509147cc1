//! What holds of every expression.

use vstd::prelude::*;

use crate::band_math;
use crate::band_math::{BinOp, Func, TokModel};
use crate::formula;
use crate::formula::{Args, Arith, Expr};
use crate::number::Real;
use crate::text;

verus! {

/// The token of an operator.
pub open spec fn op_token(op: BinOp) -> TokModel {
    match op {
        BinOp::Plus => TokModel::Sym('+'),
        BinOp::Minus => TokModel::Sym('-'),
        BinOp::Times => TokModel::Sym('*'),
        BinOp::Over => TokModel::Sym('/'),
        _ => TokModel::Comparison(op),
    }
}

/// An expression written out with all brackets.
pub open spec fn written(e: Expr) -> Seq<TokModel>
    decreases e,
{
    match e {
        Expr::Band(i) => seq![TokModel::Name(seq!['b'] + text::decimal(i as nat))],
        Expr::Lit(v) => seq![TokModel::Num(v)],
        Expr::Neg(a) => seq![TokModel::Sym('('), TokModel::Sym('-')] + written(*a)
            + seq![TokModel::Sym(')')],
        Expr::Bin(op, a, b) => seq![TokModel::Sym('(')] + written(*a) + seq![op_token(op)]
            + written(*b) + seq![TokModel::Sym(')')],
        Expr::Call(func, args) => seq![TokModel::Name(func.name()), TokModel::Sym('(')]
            + written_args(args) + seq![TokModel::Sym(')')],
    }
}

pub open spec fn written_args(args: Args) -> Seq<TokModel>
    decreases args,
{
    match args {
        Args::Last(e) => written(*e),
        Args::More(e, rest) => written(*e) + seq![TokModel::Sym(',')] + written_args(*rest),
    }
}

spec fn stands(ts: Seq<TokModel>, p: int, s: Seq<TokModel>) -> bool {
    &&& 0 <= p
    &&& p + s.len() <= ts.len()
    &&& forall|i: int| 0 <= i < s.len() ==> ts[p + i] == #[trigger] s[i]
}

proof fn parts_stand(ts: Seq<TokModel>, p: int, a: Seq<TokModel>, b: Seq<TokModel>)
    requires
        stands(ts, p, a + b),
    ensures
        stands(ts, p, a),
        stands(ts, p + a.len(), b),
{
    let s = a + b;
    assert forall|i: int| 0 <= i < a.len() implies ts[p + i] == #[trigger] a[i] by {
        assert(s[i] == a[i]);
    }
    assert forall|i: int| 0 <= i < b.len() implies ts[p + a.len() + i] == #[trigger] b[i] by {
        assert(s[a.len() + i] == b[i]);
    }
}

proof fn one_stands(ts: Seq<TokModel>, p: int, t: TokModel)
    requires
        stands(ts, p, seq![t]),
    ensures
        p < ts.len(),
        ts[p] == t,
{
    assert(seq![t][0] == t);
    assert(ts[p + 0] == t);
}

/// No operator stands at a place.
spec fn no_operator(ts: Seq<TokModel>, p: int) -> bool {
    forall|l: nat| #[trigger] formula::op_at(ts, p, l) is None
}

proof fn closing_is_no_operator(ts: Seq<TokModel>, p: int)
    requires
        0 <= p,
        p < ts.len() ==> ts[p] == TokModel::Sym(')') || ts[p] == TokModel::Sym(','),
    ensures
        no_operator(ts, p),
{
}

/// A value that no operator follows is an expression at every level.
proof fn value_is_expression(ts: Seq<TokModel>, p: int, q: int, e: Expr, level: nat)
    requires
        formula::atom_at(ts, p) == Ok::<(Expr, int), formula::ParseFault>((e, q)),
        !formula::sym_at(ts, p, '-'),
        p < q <= ts.len(),
        level <= 3,
        forall|l: nat| level <= l < 3 ==> #[trigger] formula::op_at(ts, q, l) is None,
    ensures
        formula::expr_at(ts, p, level) == Ok::<(Expr, int), formula::ParseFault>((e, q)),
    decreases 3 - level,
{
    if level < 3 {
        value_is_expression(ts, p, q, e, level + 1);
        assert(formula::op_at(ts, q, level) is None);
        assert(formula::rest_at(ts, q, level, e) == Ok::<(Expr, int), formula::ParseFault>((e, q)));
    } else {
        assert(formula::expr_at(ts, p, level) == formula::unary_at(ts, p));
    }
}

spec fn level_of(op: BinOp) -> nat {
    match op {
        BinOp::Plus | BinOp::Minus => 1,
        BinOp::Times | BinOp::Over => 2,
        _ => 0,
    }
}

proof fn operation_is_expression(
    ts: Seq<TokModel>,
    p: int,
    q: int,
    r: int,
    op: BinOp,
    a: Expr,
    b: Expr,
    level: nat,
)
    requires
        0 <= p,
        formula::atom_at(ts, p) == Ok::<(Expr, int), formula::ParseFault>((a, q)),
        !formula::sym_at(ts, p, '-'),
        p < q < ts.len(),
        ts[q] == op_token(op),
        formula::atom_at(ts, q + 1) == Ok::<(Expr, int), formula::ParseFault>((b, r)),
        !formula::sym_at(ts, q + 1, '-'),
        q + 1 < r <= ts.len(),
        no_operator(ts, r),
        level <= level_of(op),
    ensures
        formula::expr_at(ts, p, level) == Ok::<(Expr, int), formula::ParseFault>(
            (Expr::Bin(op, Box::new(a), Box::new(b)), r),
        ),
    decreases level_of(op) - level,
{
    let whole = Expr::Bin(op, Box::new(a), Box::new(b));
    assert(formula::op_at(ts, r, level) is None);
    if level < level_of(op) {
        operation_is_expression(ts, p, q, r, op, a, b, level + 1);
        assert(formula::rest_at(ts, r, level, whole) == Ok::<(Expr, int), formula::ParseFault>(
            (whole, r),
        ));
    } else {
        value_is_expression(ts, p, q, a, level + 1);
        assert(formula::op_at(ts, q, level) == Some(op));
        value_is_expression(ts, q + 1, r, b, level + 1);
        assert(formula::rest_at(ts, r, level, whole) == Ok::<(Expr, int), formula::ParseFault>(
            (whole, r),
        ));
        assert(formula::rest_at(ts, q, level, a) == formula::rest_at(ts, r, level, whole));
    }
}

proof fn band_names_read(i: usize)
    ensures
        formula::func_of(seq!['b'] + text::decimal(i as nat)) is None,
        formula::band_index(seq!['b'] + text::decimal(i as nat)) == Some(i as int),
{
    let name = seq!['b'] + text::decimal(i as nat);
    text::decimal_reads_back(i as nat);
    assert(name.skip(1) =~= text::decimal(i as nat));
    assert(name[0] == 'b');
    assert forall|f: Func| name != #[trigger] f.name() by {
        reveal_strlit("sqrt");
        reveal_strlit("abs");
        reveal_strlit("min");
        reveal_strlit("max");
        reveal_strlit("pow");
        reveal_strlit("log");
        reveal_strlit("exp");
        reveal_strlit("where");
        assert(f.name()[0] != 'b');
    }
}

proof fn function_names_read(f: Func)
    ensures
        formula::func_of(f.name()) == Some(f),
{
    let g = choose|g: Func| f.name() == #[trigger] g.name();
    band_math::names_differ(f, g);
}

proof fn value_reads(e: Expr, ts: Seq<TokModel>, p: int)
    requires
        formula::sound(e),
        stands(ts, p, written(e)),
    ensures
        formula::atom_at(ts, p) == Ok::<(Expr, int), formula::ParseFault>(
            (e, p + written(e).len()),
        ),
        written(e).len() > 0,
        !formula::sym_at(ts, p, '-'),
    decreases e,
{
    let open = seq![TokModel::Sym('(')];
    let close = seq![TokModel::Sym(')')];
    match e {
        Expr::Band(i) => {
            one_stands(ts, p, TokModel::Name(seq!['b'] + text::decimal(i as nat)));
            band_names_read(i);
        },
        Expr::Lit(v) => {
            one_stands(ts, p, TokModel::Num(v));
        },
        Expr::Neg(a) => {
            let head = seq![TokModel::Sym('('), TokModel::Sym('-')];
            let n = written(*a).len();
            parts_stand(ts, p, head + written(*a), close);
            parts_stand(ts, p, head, written(*a));
            assert(head[0] == TokModel::Sym('(') && head[1] == TokModel::Sym('-'));
            assert(ts[p + 0] == TokModel::Sym('('));
            assert(ts[p + 1] == TokModel::Sym('-'));
            one_stands(ts, p + 2 + n, TokModel::Sym(')'));
            value_reads(*a, ts, p + 2);
            let q = p + 2 + n;
            closing_is_no_operator(ts, q);
            assert(formula::unary_at(ts, p + 2) == formula::atom_at(ts, p + 2));
            assert(formula::unary_at(ts, p + 1) == Ok::<(Expr, int), formula::ParseFault>((e, q)));
            signed_is_expression(ts, p + 1, q, e, 0);
        },
        Expr::Bin(op, a, b) => {
            let mid = seq![op_token(op)];
            let n = written(*a).len();
            let m = written(*b).len();
            parts_stand(ts, p, open + written(*a) + mid + written(*b), close);
            parts_stand(ts, p, open + written(*a) + mid, written(*b));
            parts_stand(ts, p, open + written(*a), mid);
            parts_stand(ts, p, open, written(*a));
            one_stands(ts, p, TokModel::Sym('('));
            one_stands(ts, p + 1 + n, op_token(op));
            one_stands(ts, p + 2 + n + m, TokModel::Sym(')'));
            value_reads(*a, ts, p + 1);
            value_reads(*b, ts, p + 2 + n);
            closing_is_no_operator(ts, p + 2 + n + m);
            operation_is_expression(ts, p + 1, p + 1 + n, p + 2 + n + m, op, *a, *b, 0);
        },
        Expr::Call(func, args) => {
            let head = seq![TokModel::Name(func.name()), TokModel::Sym('(')];
            parts_stand(ts, p, head + written_args(args), close);
            parts_stand(ts, p, head, written_args(args));
            assert(head[0] == TokModel::Name(func.name()) && head[1] == TokModel::Sym('('));
            assert(ts[p + 0] == TokModel::Name(func.name()));
            assert(ts[p + 1] == TokModel::Sym('('));
            let q = p + 2 + written_args(args).len();
            one_stands(ts, q, TokModel::Sym(')'));
            args_read(args, ts, p + 2);
            function_names_read(func);
        },
    }
}

/// A signed value that no operator follows is an expression.
proof fn signed_is_expression(ts: Seq<TokModel>, p: int, q: int, e: Expr, level: nat)
    requires
        formula::unary_at(ts, p) == Ok::<(Expr, int), formula::ParseFault>((e, q)),
        p < q <= ts.len(),
        level <= 3,
        no_operator(ts, q),
    ensures
        formula::expr_at(ts, p, level) == Ok::<(Expr, int), formula::ParseFault>((e, q)),
    decreases 3 - level,
{
    assert(formula::op_at(ts, q, level) is None);
    if level < 3 {
        signed_is_expression(ts, p, q, e, level + 1);
        assert(formula::op_at(ts, q, level) is None);
        assert(formula::rest_at(ts, q, level, e) == Ok::<(Expr, int), formula::ParseFault>((e, q)));
    } else {
        assert(formula::expr_at(ts, p, level) == formula::unary_at(ts, p));
    }
}

proof fn args_read(args: Args, ts: Seq<TokModel>, p: int)
    requires
        formula::sound_args(args),
        stands(ts, p, written_args(args)),
        p + written_args(args).len() < ts.len(),
        ts[p + written_args(args).len()] == TokModel::Sym(')'),
    ensures
        formula::args_at(ts, p) == Ok::<(Args, int), formula::ParseFault>(
            (args, p + written_args(args).len()),
        ),
    decreases args,
{
    match args {
        Args::Last(e) => {
            value_reads(*e, ts, p);
            let q = p + written(*e).len();
            closing_is_no_operator(ts, q);
            value_is_expression(ts, p, q, *e, 0);
        },
        Args::More(e, rest) => {
            let comma = seq![TokModel::Sym(',')];
            parts_stand(ts, p, written(*e) + comma, written_args(*rest));
            parts_stand(ts, p, written(*e), comma);
            let q = p + written(*e).len();
            one_stands(ts, q, TokModel::Sym(','));
            value_reads(*e, ts, p);
            closing_is_no_operator(ts, q);
            value_is_expression(ts, p, q, *e, 0);
            args_read(*rest, ts, q + 1);
        },
    }
}

/// An expression that is written out with all brackets reads back as
/// itself.
pub proof fn expressions_read_back(e: Expr)
    requires
        formula::sound(e),
    ensures
        formula::expression(written(e)) == Ok::<Expr, formula::ParseFault>(e),
{
    let ts = written(e);
    assert(stands(ts, 0, written(e)));
    value_reads(e, ts, 0);
    closing_is_no_operator(ts, ts.len() as int);
    value_is_expression(ts, 0, ts.len() as int, e, 0);
}

/// An expression mentions a band.
pub open spec fn mentions(e: Expr, b: int) -> bool
    decreases e,
{
    match e {
        Expr::Band(i) => i == b,
        Expr::Lit(_) => false,
        Expr::Neg(a) => mentions(*a, b),
        Expr::Bin(_, x, y) => mentions(*x, b) || mentions(*y, b),
        Expr::Call(_, args) => args_mention(args, b),
    }
}

pub open spec fn args_mention(args: Args, b: int) -> bool
    decreases args,
{
    match args {
        Args::Last(e) => mentions(*e, b),
        Args::More(e, rest) => mentions(*e, b) || args_mention(*rest, b),
    }
}

/// A band without a value leaves an expression that mentions it without
/// one, whatever the arithmetic.
pub proof fn nodata_spreads<F: Fn(Arith, Real, Real) -> Real>(
    e: Expr,
    bands: Seq<Real>,
    f: F,
    b: int,
)
    requires
        mentions(e, b),
        bands[b].nan(),
    ensures
        formula::value(e, bands, f).nan(),
    decreases e,
{
    match e {
        Expr::Band(_) | Expr::Lit(_) => {},
        Expr::Neg(a) => {
            nodata_spreads(*a, bands, f, b);
        },
        Expr::Bin(_, x, y) => {
            if mentions(*x, b) {
                nodata_spreads(*x, bands, f, b);
            } else {
                nodata_spreads(*y, bands, f, b);
            }
        },
        Expr::Call(_, args) => {
            nodata_spreads_in(args, bands, f, b);
        },
    }
}

proof fn nodata_spreads_in<F: Fn(Arith, Real, Real) -> Real>(
    args: Args,
    bands: Seq<Real>,
    f: F,
    b: int,
)
    requires
        args_mention(args, b),
        bands[b].nan(),
    ensures
        formula::any_nan(formula::values(args, bands, f)),
    decreases args,
{
    let v = formula::values(args, bands, f);
    match args {
        Args::Last(e) => {
            nodata_spreads(*e, bands, f, b);
            assert(v[0].nan());
        },
        Args::More(e, rest) => {
            if mentions(*e, b) {
                nodata_spreads(*e, bands, f, b);
                assert(v[0].nan());
            } else {
                nodata_spreads_in(*rest, bands, f, b);
                let w = formula::values(*rest, bands, f);
                let i = choose|i: int| 0 <= i < w.len() && (#[trigger] w[i]).nan();
                assert(v[i + 1] == w[i]);
            }
        },
    }
}

/// A comparison of numbers is one or zero.
pub proof fn comparisons_are_one_or_zero<F: Fn(Arith, Real, Real) -> Real>(
    f: F,
    op: BinOp,
    a: Real,
    b: Real,
)
    requires
        band_math::is_comparison(op),
        !a.nan(),
        !b.nan(),
    ensures
        formula::bin_value(f, op, a, b) == formula::truth(true) || formula::bin_value(f, op, a, b)
            == formula::truth(false),
{
}

// How operators bind.

/// An expression of a level is one of every level down to which no operator
/// follows it.
proof fn nothing_follows(ts: Seq<TokModel>, p: int, q: int, e: Expr, from: nat, to: nat)
    requires
        to <= from <= 3,
        p < q <= ts.len(),
        formula::expr_at(ts, p, from) == Ok::<(Expr, int), formula::ParseFault>((e, q)),
        forall|l: nat| to <= l < from ==> #[trigger] formula::op_at(ts, q, l) is None,
    ensures
        formula::expr_at(ts, p, to) == Ok::<(Expr, int), formula::ParseFault>((e, q)),
    decreases from - to,
{
    if to < from {
        nothing_follows(ts, p, q, e, from, to + 1);
        assert(formula::op_at(ts, q, to) is None);
        assert(formula::rest_at(ts, q, to, e) == Ok::<(Expr, int), formula::ParseFault>((e, q)));
    }
}

/// An operand, an operator of a level, and an operand that binds tighter.
proof fn carried_on(
    ts: Seq<TokModel>,
    q: int,
    r: int,
    op: BinOp,
    left: Expr,
    right: Expr,
)
    requires
        0 <= q,
        q + 1 < r <= ts.len(),
        ts[q] == op_token(op),
        formula::expr_at(ts, q + 1, level_of(op) + 1) == Ok::<(Expr, int), formula::ParseFault>(
            (right, r),
        ),
    ensures
        formula::rest_at(ts, q, level_of(op), left) == formula::rest_at(
            ts,
            r,
            level_of(op),
            Expr::Bin(op, Box::new(left), Box::new(right)),
        ),
{
    assert(formula::op_at(ts, q, level_of(op)) == Some(op));
}

proof fn operand_stands(ts: Seq<TokModel>, p: int, e: Expr, level: nat)
    requires
        formula::sound(e),
        stands(ts, p, written(e)),
        level <= 3,
        forall|l: nat|
            level <= l < 3 ==> #[trigger] formula::op_at(ts, p + written(e).len(), l) is None,
    ensures
        written(e).len() > 0,
        formula::expr_at(ts, p, level) == Ok::<(Expr, int), formula::ParseFault>(
            (e, p + written(e).len()),
        ),
{
    value_reads(e, ts, p);
    value_is_expression(ts, p, p + written(e).len(), e, level);
}

/// Tokens of two operators between three operands.
pub open spec fn two_operations(a: Expr, f: BinOp, b: Expr, g: BinOp, c: Expr) -> Seq<TokModel> {
    written(a) + seq![op_token(f)] + written(b) + seq![op_token(g)] + written(c)
}

/// An operator is one of sums.
pub open spec fn adds(op: BinOp) -> bool {
    op is Plus || op is Minus
}

/// An operator is one of products.
pub open spec fn multiplies(op: BinOp) -> bool {
    op is Times || op is Over
}

/// The second of two operators binds tighter: a product after a sum or a
/// comparison, or a sum after a comparison.
pub open spec fn binds_tighter(f: BinOp, g: BinOp) -> bool {
    (multiplies(g) && !multiplies(f)) || (adds(g) && !adds(f) && !multiplies(f))
}

/// Without brackets products are formed before sums and sums before
/// comparisons, and otherwise the left operation comes first: so `a - b - c`
/// is `(a - b) - c` and `a + b * c` is `a + (b * c)`.
pub proof fn operators_bind_as_usual(a: Expr, f: BinOp, b: Expr, g: BinOp, c: Expr)
    requires
        formula::sound(a),
        formula::sound(b),
        formula::sound(c),
    ensures
        formula::expression(two_operations(a, f, b, g, c)) == Ok::<Expr, formula::ParseFault>(
            if binds_tighter(f, g) {
                Expr::Bin(
                    f,
                    Box::new(a),
                    Box::new(Expr::Bin(g, Box::new(b), Box::new(c))),
                )
            } else {
                Expr::Bin(
                    g,
                    Box::new(Expr::Bin(f, Box::new(a), Box::new(b))),
                    Box::new(c),
                )
            },
        ),
{
    let ts = two_operations(a, f, b, g, c);
    let wa = written(a);
    let wb = written(b);
    let wc = written(c);
    let x = seq![op_token(f)];
    let y = seq![op_token(g)];
    assert(stands(ts, 0, ts));
    parts_stand(ts, 0, wa + x + wb + y, wc);
    parts_stand(ts, 0, wa + x + wb, y);
    parts_stand(ts, 0, wa + x, wb);
    parts_stand(ts, 0, wa, x);
    let qa = wa.len() as int;
    let pb = qa + 1;
    let qb = pb + wb.len();
    let pc = qb + 1;
    let end = ts.len() as int;
    one_stands(ts, qa, op_token(f));
    one_stands(ts, qb, op_token(g));
    closing_is_no_operator(ts, end);
    let l = level_of(f);
    let k = level_of(g);
    assert(forall|j: nat| j != l && j < 3 ==> #[trigger] formula::op_at(ts, qa, j) is None);
    assert(forall|j: nat| j != k && j < 3 ==> #[trigger] formula::op_at(ts, qb, j) is None);
    operand_stands(ts, 0, a, l + 1);
    if binds_tighter(f, g) {
        value_reads(b, ts, pb);
        value_reads(c, ts, pc);
        operation_is_expression(ts, pb, qb, end, g, b, c, l + 1);
        let right = Expr::Bin(g, Box::new(b), Box::new(c));
        let whole = Expr::Bin(f, Box::new(a), Box::new(right));
        carried_on(ts, qa, end, f, a, right);
        assert(formula::op_at(ts, end, l) is None);
        assert(formula::rest_at(ts, end, l, whole) == Ok::<(Expr, int), formula::ParseFault>(
            (whole, end),
        ));
        assert(formula::expr_at(ts, 0, l) == Ok::<(Expr, int), formula::ParseFault>((whole, end)));
        nothing_follows(ts, 0, end, whole, l, 0);
    } else {
        let left = Expr::Bin(f, Box::new(a), Box::new(b));
        let whole = Expr::Bin(g, Box::new(left), Box::new(c));
        operand_stands(ts, pb, b, l + 1);
        carried_on(ts, qa, qb, f, a, b);
        operand_stands(ts, pc, c, k + 1);
        carried_on(ts, qb, end, g, left, c);
        assert(formula::op_at(ts, end, k) is None);
        assert(formula::rest_at(ts, end, k, whole) == Ok::<(Expr, int), formula::ParseFault>(
            (whole, end),
        ));
        if k < l {
            assert(formula::op_at(ts, qb, l) is None);
            assert(formula::rest_at(ts, qb, l, left) == Ok::<(Expr, int), formula::ParseFault>(
                (left, qb),
            ));
            assert(formula::expr_at(ts, 0, l) == Ok::<(Expr, int), formula::ParseFault>(
                (left, qb),
            ));
            nothing_follows(ts, 0, qb, left, l, k + 1);
        }
        assert(formula::expr_at(ts, 0, k) == Ok::<(Expr, int), formula::ParseFault>((whole, end)));
        nothing_follows(ts, 0, end, whole, k, 0);
    }
}

/// A sign binds tighter than any operator: `-a * b` is `(-a) * b`.
pub proof fn a_sign_binds_tightest(a: Expr, op: BinOp, b: Expr)
    requires
        formula::sound(a),
        formula::sound(b),
    ensures
        formula::expression(
            seq![TokModel::Sym('-')] + written(a) + seq![op_token(op)] + written(b),
        ) == Ok::<Expr, formula::ParseFault>(
            Expr::Bin(op, Box::new(Expr::Neg(Box::new(a))), Box::new(b)),
        ),
{
    let sign = seq![TokModel::Sym('-')];
    let mid = seq![op_token(op)];
    let ts = sign + written(a) + mid + written(b);
    assert(stands(ts, 0, ts));
    parts_stand(ts, 0, sign + written(a) + mid, written(b));
    parts_stand(ts, 0, sign + written(a), mid);
    parts_stand(ts, 0, sign, written(a));
    let q = 1 + written(a).len() as int;
    let end = ts.len() as int;
    one_stands(ts, 0, TokModel::Sym('-'));
    one_stands(ts, q, op_token(op));
    closing_is_no_operator(ts, end);
    let l = level_of(op);
    let left = Expr::Neg(Box::new(a));
    let whole = Expr::Bin(op, Box::new(left), Box::new(b));
    value_reads(a, ts, 1);
    assert(formula::unary_at(ts, 1) == formula::atom_at(ts, 1));
    assert(formula::unary_at(ts, 0) == Ok::<(Expr, int), formula::ParseFault>((left, q)));
    assert(formula::expr_at(ts, 0, 3) == formula::unary_at(ts, 0));
    assert(forall|j: nat| j != l && j < 3 ==> #[trigger] formula::op_at(ts, q, j) is None);
    nothing_follows(ts, 0, q, left, 3, l + 1);
    operand_stands(ts, q + 1, b, l + 1);
    carried_on(ts, q, end, op, left, b);
    assert(formula::op_at(ts, end, l) is None);
    assert(formula::rest_at(ts, end, l, whole) == Ok::<(Expr, int), formula::ParseFault>(
        (whole, end),
    ));
    assert(formula::expr_at(ts, 0, l) == Ok::<(Expr, int), formula::ParseFault>((whole, end)));
    nothing_follows(ts, 0, end, whole, l, 0);
}

// Bands.

/// An expression reads a band.
pub open spec fn reads(e: Expr, i: int) -> bool
    decreases e,
{
    match e {
        Expr::Band(b) => b == i,
        Expr::Lit(_) => false,
        Expr::Neg(a) => reads(*a, i),
        Expr::Bin(_, a, b) => reads(*a, i) || reads(*b, i),
        Expr::Call(_, args) => arguments_read(args, i),
    }
}

pub open spec fn arguments_read(args: Args, i: int) -> bool
    decreases args,
{
    match args {
        Args::Last(e) => reads(*e, i),
        Args::More(e, rest) => reads(*e, i) || arguments_read(*rest, i),
    }
}

/// An expression needs every band that it reads, and no more than those up
/// to the highest one that it reads.
pub proof fn an_expression_needs_what_it_reads(e: Expr, i: int)
    ensures
        reads(e, i) ==> 0 <= i < formula::bands_needed(e),
        formula::bands_needed(e) > 0 ==> reads(e, formula::bands_needed(e) - 1),
    decreases e,
{
    match e {
        Expr::Band(_) => {},
        Expr::Lit(_) => {},
        Expr::Neg(a) => {
            an_expression_needs_what_it_reads(*a, i);
        },
        Expr::Bin(_, a, b) => {
            an_expression_needs_what_it_reads(*a, i);
            an_expression_needs_what_it_reads(*b, i);
        },
        Expr::Call(_, args) => {
            arguments_need_what_they_read(args, i);
        },
    }
}

proof fn arguments_need_what_they_read(args: Args, i: int)
    ensures
        arguments_read(args, i) ==> 0 <= i < formula::args_need(args),
        formula::args_need(args) > 0 ==> arguments_read(args, formula::args_need(args) - 1),
    decreases args,
{
    match args {
        Args::Last(e) => {
            an_expression_needs_what_it_reads(*e, i);
        },
        Args::More(e, rest) => {
            an_expression_needs_what_it_reads(*e, i);
            arguments_need_what_they_read(*rest, i);
        },
    }
}

} // verus!
