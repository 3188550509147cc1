//! The tree of an expression: how tokens build it, and what it comes to.

use vstd::prelude::*;

use crate::band_math;
use crate::band_math::{BinOp, Func, Tok, TokModel, TRUE_BITS};
use crate::number::Real;
use crate::text;

verus! {

/// An expression over the bands.
#[derive(Debug)]
pub enum Expr {
    Band(usize),
    Lit(Real),
    Neg(Box<Expr>),
    Bin(BinOp, Box<Expr>, Box<Expr>),
    Call(Func, Args),
}

/// The values that a function is called with.
#[derive(Debug)]
pub enum Args {
    Last(Box<Expr>),
    More(Box<Expr>, Box<Args>),
}

impl Args {
    /// How many values there are.
    pub open spec fn count(self) -> nat
        decreases self,
    {
        match self {
            Args::Last(_) => 1,
            Args::More(_, rest) => 1 + rest.count(),
        }
    }
}

/// Every call in an expression has as many values as its function takes.
pub open spec fn sound(e: Expr) -> bool
    decreases e,
{
    match e {
        Expr::Band(_) | Expr::Lit(_) => true,
        Expr::Neg(a) => sound(*a),
        Expr::Bin(_, a, b) => sound(*a) && sound(*b),
        Expr::Call(func, args) => args.count() == func.arity() && sound_args(args),
    }
}

pub open spec fn sound_args(args: Args) -> bool
    decreases args,
{
    match args {
        Args::Last(e) => sound(*e),
        Args::More(e, rest) => sound(*e) && sound_args(*rest),
    }
}

/// How many bands an expression needs: one more than the highest index.
pub open spec fn bands_needed(e: Expr) -> nat
    decreases e,
{
    match e {
        Expr::Band(i) => i as nat + 1,
        Expr::Lit(_) => 0,
        Expr::Neg(a) => bands_needed(*a),
        Expr::Bin(_, a, b) => if bands_needed(*a) < bands_needed(*b) {
            bands_needed(*b)
        } else {
            bands_needed(*a)
        },
        Expr::Call(_, args) => args_need(args),
    }
}

pub open spec fn args_need(args: Args) -> nat
    decreases args,
{
    match args {
        Args::Last(e) => bands_needed(*e),
        Args::More(e, rest) => if bands_needed(*e) < args_need(*rest) {
            args_need(*rest)
        } else {
            bands_needed(*e)
        },
    }
}

/// Why tokens build no tree. A number is the place of a token, past the
/// end where the expression ends too early.
#[derive(Clone, Copy, Debug, PartialEq, Eq, Structural)]
pub enum ParseFault {
    /// This symbol is due at this place.
    Expected(char, usize),
    /// A value is due where the expression ends.
    NoValue,
    /// A value is due at this place.
    ExpectedValue(usize),
    /// The function named at this place got that many values.
    Arity(usize, usize),
    /// No function has the name at this place.
    UnknownFunction(usize),
    /// Nothing has the name at this place.
    UnknownName(usize),
    /// The expression is over at this place.
    Trailing(usize),
}

/// The band that a name stands for: `b` and its index.
pub open spec fn band_index(name: Seq<char>) -> Option<int> {
    let d = name.skip(1);
    if name.len() >= 2 && name[0] == 'b' && text::all_digits(d) && text::number_of(d)
        <= usize::MAX {
        Some(text::number_of(d))
    } else {
        None
    }
}

pub open spec fn sym_at(ts: Seq<TokModel>, p: int, c: char) -> bool {
    0 <= p < ts.len() && ts[p] == TokModel::Sym(c)
}

/// The comparison at a place.
pub open spec fn comparison_op(ts: Seq<TokModel>, p: int) -> Option<BinOp> {
    if 0 <= p < ts.len() {
        match ts[p] {
            TokModel::Comparison(op) => Some(op),
            _ => None,
        }
    } else {
        None
    }
}

pub open spec fn additive_op(ts: Seq<TokModel>, p: int) -> Option<BinOp> {
    if sym_at(ts, p, '+') {
        Some(BinOp::Plus)
    } else if sym_at(ts, p, '-') {
        Some(BinOp::Minus)
    } else {
        None
    }
}

pub open spec fn term_op(ts: Seq<TokModel>, p: int) -> Option<BinOp> {
    if sym_at(ts, p, '*') {
        Some(BinOp::Times)
    } else if sym_at(ts, p, '/') {
        Some(BinOp::Over)
    } else {
        None
    }
}

/// How tightly an operator binds: comparisons least, then sums, products
/// most.
pub open spec fn op_at(ts: Seq<TokModel>, p: int, level: nat) -> Option<BinOp> {
    if level == 0 {
        comparison_op(ts, p)
    } else if level == 1 {
        additive_op(ts, p)
    } else {
        term_op(ts, p)
    }
}

/// The expression at a place whose operators bind at least at a level, and
/// where it ends.
pub open spec fn expr_at(ts: Seq<TokModel>, p: int, level: nat) -> Result<(Expr, int), ParseFault>
    decreases ts.len() - p, 1int, 10 - level,
{
    if level >= 3 {
        unary_at(ts, p)
    } else {
        match expr_at(ts, p, level + 1) {
            Err(f) => Err(f),
            Ok((left, q)) => if p < q <= ts.len() {
                rest_at(ts, q, level, left)
            } else {
                Err(ParseFault::NoValue)
            },
        }
    }
}

/// An expression carried on: operators of a level take their operands from
/// the left on.
pub open spec fn rest_at(ts: Seq<TokModel>, p: int, level: nat, left: Expr) -> Result<
    (Expr, int),
    ParseFault,
>
    decreases ts.len() - p, 2int, 0int,
{
    match op_at(ts, p, level) {
        None => Ok((left, p)),
        Some(op) => if p >= ts.len() {
            Ok((left, p))
        } else {
            match expr_at(ts, p + 1, level + 1) {
                Err(f) => Err(f),
                Ok((right, q)) => if p < q <= ts.len() {
                    rest_at(ts, q, level, Expr::Bin(op, Box::new(left), Box::new(right)))
                } else {
                    Err(ParseFault::NoValue)
                },
            }
        },
    }
}

pub open spec fn unary_at(ts: Seq<TokModel>, p: int) -> Result<(Expr, int), ParseFault>
    decreases ts.len() - p, 0int, 2int,
{
    if p < ts.len() && sym_at(ts, p, '-') {
        match unary_at(ts, p + 1) {
            Err(f) => Err(f),
            Ok((inner, q)) => Ok((Expr::Neg(Box::new(inner)), q)),
        }
    } else {
        atom_at(ts, p)
    }
}

/// A value: a number, a bracketed expression, a band or a call.
pub open spec fn atom_at(ts: Seq<TokModel>, p: int) -> Result<(Expr, int), ParseFault>
    decreases ts.len() - p, 0int, 1int,
{
    if p < 0 || p >= ts.len() {
        Err(ParseFault::NoValue)
    } else {
        match ts[p] {
            TokModel::Num(v) => Ok((Expr::Lit(v), p + 1)),
            TokModel::Sym(c) => if c == '(' {
                match expr_at(ts, p + 1, 0) {
                    Err(f) => Err(f),
                    Ok((inner, q)) => if sym_at(ts, q, ')') {
                        Ok((inner, q + 1))
                    } else {
                        Err(ParseFault::Expected(')', q as usize))
                    },
                }
            } else {
                Err(ParseFault::ExpectedValue(p as usize))
            },
            TokModel::Comparison(_) => Err(ParseFault::ExpectedValue(p as usize)),
            TokModel::Name(name) => named_at(ts, p, name),
        }
    }
}

/// The function of a name, where there is one.
pub open spec fn func_of(name: Seq<char>) -> Option<Func> {
    if exists|f: Func| name == #[trigger] f.name() {
        Some(choose|f: Func| name == #[trigger] f.name())
    } else {
        None
    }
}

/// The value that a name at a place stands for.
pub open spec fn named_at(ts: Seq<TokModel>, p: int, name: Seq<char>) -> Result<
    (Expr, int),
    ParseFault,
>
    decreases ts.len() - p, 0int, 0int,
{
    match func_of(name) {
        Some(func) => if p >= ts.len() || !sym_at(ts, p + 1, '(') {
            Err(ParseFault::Expected('(', (p + 1) as usize))
        } else {
            match args_at(ts, p + 2) {
                Err(f) => Err(f),
                Ok((args, q)) => if !sym_at(ts, q, ')') {
                    Err(ParseFault::Expected(')', q as usize))
                } else if args.count() != func.arity() {
                    Err(ParseFault::Arity(p as usize, args.count() as usize))
                } else {
                    Ok((Expr::Call(func, args), q + 1))
                },
            }
        },
        None => match band_index(name) {
            Some(i) => Ok((Expr::Band(i as usize), p + 1)),
            None => if sym_at(ts, p + 1, '(') {
                Err(ParseFault::UnknownFunction(p as usize))
            } else {
                Err(ParseFault::UnknownName(p as usize))
            },
        },
    }
}

/// Values with commas between them.
pub open spec fn args_at(ts: Seq<TokModel>, p: int) -> Result<(Args, int), ParseFault>
    decreases ts.len() - p, 3int, 0int,
{
    match expr_at(ts, p, 0) {
        Err(f) => Err(f),
        Ok((first, q)) => if p < q < ts.len() && sym_at(ts, q, ',') {
            match args_at(ts, q + 1) {
                Err(f) => Err(f),
                Ok((rest, r)) => Ok((Args::More(Box::new(first), Box::new(rest)), r)),
            }
        } else {
            Ok((Args::Last(Box::new(first)), q))
        },
    }
}

/// The expression that tokens build.
pub open spec fn expression(ts: Seq<TokModel>) -> Result<Expr, ParseFault> {
    match expr_at(ts, 0, 0) {
        Err(f) => Err(f),
        Ok((e, q)) => if q < ts.len() {
            Err(ParseFault::Trailing(q as usize))
        } else {
            Ok(e)
        },
    }
}

/// A fault that some tokens can have.
pub open spec fn is_fault_of(ts: Seq<TokModel>, f: ParseFault) -> bool {
    match f {
        ParseFault::Expected(c, _) => band_math::is_symbol(c),
        ParseFault::NoValue => true,
        ParseFault::ExpectedValue(p) | ParseFault::Trailing(p) => p < ts.len(),
        ParseFault::Arity(p, _) => p < ts.len() && ts[p as int] is Name && func_of(
            ts[p as int]->Name_0,
        ) is Some,
        ParseFault::UnknownFunction(p) | ParseFault::UnknownName(p) => p < ts.len()
            && ts[p as int] is Name,
    }
}

/// A result that the parser found at a place.
pub open spec fn found(
    ts: Seq<TokModel>,
    r: Result<(Expr, usize), ParseFault>,
    m: Result<(Expr, int), ParseFault>,
    p: int,
) -> bool {
    match m {
        Ok((e, q)) => r == Ok::<(Expr, usize), ParseFault>((e, q as usize)) && p < q <= ts.len()
            && sound(e),
        Err(f) => r == Err::<(Expr, usize), ParseFault>(f) && is_fault_of(ts, f),
    }
}

fn has_sym(toks: &Vec<Tok>, p: usize, c: char) -> (r: bool)
    ensures
        r == sym_at(band_math::tok_models(toks@), p as int, c),
{
    if p >= toks.len() {
        return false;
    }
    assert(band_math::tok_models(toks@)[p as int] == toks@[p as int]@);
    match &toks[p] {
        Tok::Sym(s) => *s == c,
        _ => false,
    }
}

fn operator(toks: &Vec<Tok>, p: usize, level: u8) -> (r: Option<BinOp>)
    ensures
        r == op_at(band_math::tok_models(toks@), p as int, level as nat),
        r is Some ==> p < toks@.len(),
{
    if p >= toks.len() {
        return None;
    }
    assert(band_math::tok_models(toks@)[p as int] == toks@[p as int]@);
    if level == 0 {
        match &toks[p] {
            Tok::Comparison(op) => Some(*op),
            _ => None,
        }
    } else if level == 1 {
        if has_sym(toks, p, '+') {
            Some(BinOp::Plus)
        } else if has_sym(toks, p, '-') {
            Some(BinOp::Minus)
        } else {
            None
        }
    } else {
        if has_sym(toks, p, '*') {
            Some(BinOp::Times)
        } else if has_sym(toks, p, '/') {
            Some(BinOp::Over)
        } else {
            None
        }
    }
}

fn parse_expr(toks: &Vec<Tok>, p: usize, level: u8) -> (r: Result<(Expr, usize), ParseFault>)
    requires
        p <= toks@.len() < usize::MAX,
        level <= 3,
    ensures
        found(
            band_math::tok_models(toks@),
            r,
            expr_at(band_math::tok_models(toks@), p as int, level as nat),
            p as int,
        ),
    decreases toks@.len() - p, 1int, 10 - level,
{
    let ghost ts = band_math::tok_models(toks@);
    if level >= 3 {
        return parse_unary(toks, p);
    }
    let (first, q0) = match parse_expr(toks, p, level + 1) {
        Ok(x) => x,
        Err(f) => {
            return Err(f);
        },
    };
    let mut left = first;
    let mut q: usize = q0;
    loop
        invariant
            ts == band_math::tok_models(toks@),
            p < q <= toks@.len() < usize::MAX,
            level < 3,
            sound(left),
            expr_at(ts, p as int, level as nat) == rest_at(ts, q as int, level as nat, left),
        decreases toks@.len() - q,
    {
        let op = match operator(toks, q, level) {
            Some(op) => op,
            None => {
                return Ok((left, q));
            },
        };
        match parse_expr(toks, q + 1, level + 1) {
            Ok((right, n)) => {
                left = Expr::Bin(op, Box::new(left), Box::new(right));
                q = n;
            },
            Err(f) => {
                return Err(f);
            },
        }
    }
}

fn parse_unary(toks: &Vec<Tok>, p: usize) -> (r: Result<(Expr, usize), ParseFault>)
    requires
        p <= toks@.len() < usize::MAX,
    ensures
        found(
            band_math::tok_models(toks@),
            r,
            unary_at(band_math::tok_models(toks@), p as int),
            p as int,
        ),
    decreases toks@.len() - p, 0int, 2int,
{
    if p < toks.len() && has_sym(toks, p, '-') {
        match parse_unary(toks, p + 1) {
            Ok((inner, q)) => Ok((Expr::Neg(Box::new(inner)), q)),
            Err(f) => Err(f),
        }
    } else {
        parse_atom(toks, p)
    }
}

fn parse_atom(toks: &Vec<Tok>, p: usize) -> (r: Result<(Expr, usize), ParseFault>)
    requires
        p <= toks@.len() < usize::MAX,
    ensures
        found(
            band_math::tok_models(toks@),
            r,
            atom_at(band_math::tok_models(toks@), p as int),
            p as int,
        ),
    decreases toks@.len() - p, 0int, 1int,
{
    if p >= toks.len() {
        return Err(ParseFault::NoValue);
    }
    assert(band_math::tok_models(toks@)[p as int] == toks@[p as int]@);
    match &toks[p] {
        Tok::Num(v) => Ok((Expr::Lit(*v), p + 1)),
        Tok::Sym(c) => if *c == '(' {
            match parse_expr(toks, p + 1, 0) {
                Ok((inner, q)) => if has_sym(toks, q, ')') {
                    Ok((inner, q + 1))
                } else {
                    Err(ParseFault::Expected(')', q))
                },
                Err(f) => Err(f),
            }
        } else {
            Err(ParseFault::ExpectedValue(p))
        },
        Tok::Comparison(_) => Err(ParseFault::ExpectedValue(p)),
        Tok::Name(name) => parse_named(toks, p, name.as_str()),
    }
}

/// The index that a band's name holds.
fn read_band(name: &str) -> (r: Option<usize>)
    ensures
        match band_index(name@) {
            Some(i) => r == Some(i as usize),
            None => r is None,
        },
{
    let cs = text::chars_of(name);
    if cs.len() < 2 || cs[0] != 'b' {
        return None;
    }
    let ghost d = name@.skip(1);
    let mut n: usize = 0;
    let mut fits: bool = true;
    assert(d.take(0) =~= Seq::empty());
    for i in 1..cs.len()
        invariant
            cs@ == name@,
            d == name@.skip(1),
            cs@.len() >= 2,
            forall|k: int| 0 <= k < i - 1 ==> text::is_digit(#[trigger] d[k]),
            fits ==> n == text::number_of(d.take(i - 1)),
            !fits ==> text::number_of(d.take(i - 1)) > usize::MAX,
            n >= 0,
    {
        let c = cs[i];
        assert(d[i - 1] == c);
        if !('0' <= c && c <= '9') {
            assert(!text::is_digit(d[i - 1]));
            return None;
        }
        let v: usize = (c as u32 - '0' as u32) as usize;
        proof {
            assert(d.take(i as int).drop_last() =~= d.take(i - 1));
            assert(d.take(i as int).last() == c);
        }
        if fits && n <= (usize::MAX - v) / 10 {
            n = n * 10 + v;
        } else {
            fits = false;
        }
    }
    assert(d.take(cs@.len() - 1) =~= d);
    if fits {
        Some(n)
    } else {
        None
    }
}

fn parse_named(toks: &Vec<Tok>, p: usize, name: &str) -> (r: Result<(Expr, usize), ParseFault>)
    requires
        p < toks@.len() < usize::MAX,
        toks@[p as int]@ == TokModel::Name(name@),
    ensures
        found(
            band_math::tok_models(toks@),
            r,
            named_at(band_math::tok_models(toks@), p as int, name@),
            p as int,
        ),
    decreases toks@.len() - p, 0int, 0int,
{
    match Func::lookup(name) {
        Some((func, arity)) => {
            proof {
                let g = choose|f: Func| name@ == #[trigger] f.name();
                band_math::names_differ(func, g);
            }
            if !has_sym(toks, p + 1, '(') {
                return Err(ParseFault::Expected('(', p + 1));
            }
            match parse_args(toks, p + 2) {
                Ok((args, n, q)) => if !has_sym(toks, q, ')') {
                    Err(ParseFault::Expected(')', q))
                } else if n != arity {
                    Err(ParseFault::Arity(p, n))
                } else {
                    Ok((Expr::Call(func, args), q + 1))
                },
                Err(f) => Err(f),
            }
        },
        None => match read_band(name) {
            Some(i) => Ok((Expr::Band(i), p + 1)),
            None => if has_sym(toks, p + 1, '(') {
                Err(ParseFault::UnknownFunction(p))
            } else {
                Err(ParseFault::UnknownName(p))
            },
        },
    }
}

fn parse_args(toks: &Vec<Tok>, p: usize) -> (r: Result<(Args, usize, usize), ParseFault>)
    requires
        p <= toks@.len() < usize::MAX,
    ensures
        match args_at(band_math::tok_models(toks@), p as int) {
            Ok((args, q)) => r == Ok::<(Args, usize, usize), ParseFault>(
                (args, args.count() as usize, q as usize),
            ) && p < q <= toks@.len() && args.count() <= toks@.len() - p && sound_args(args),
            Err(f) => r == Err::<(Args, usize, usize), ParseFault>(f) && is_fault_of(
                band_math::tok_models(toks@),
                f,
            ),
        },
    decreases toks@.len() - p, 3int, 0int,
{
    match parse_expr(toks, p, 0) {
        Ok((first, q)) => if has_sym(toks, q, ',') {
            match parse_args(toks, q + 1) {
                Ok((rest, n, r)) => Ok((Args::More(Box::new(first), Box::new(rest)), n + 1, r)),
                Err(f) => Err(f),
            }
        } else {
            Ok((Args::Last(Box::new(first)), 1, q))
        },
        Err(f) => Err(f),
    }
}

/// Build the tree of an expression.
pub fn parse(toks: &Vec<Tok>) -> (r: Result<Expr, ParseFault>)
    requires
        toks@.len() < usize::MAX,
    ensures
        r == expression(band_math::tok_models(toks@)),
        r matches Ok(e) ==> sound(e),
        r matches Err(f) ==> is_fault_of(band_math::tok_models(toks@), f),
{
    match parse_expr(toks, 0, 0) {
        Ok((e, q)) => if q < toks.len() {
            Err(ParseFault::Trailing(q))
        } else {
            Ok(e)
        },
        Err(f) => Err(f),
    }
}

fn higher(a: Option<usize>, b: Option<usize>) -> (r: Option<usize>)
    ensures
        r == (match (a, b) {
            (None, _) => b,
            (_, None) => a,
            (Some(x), Some(y)) => Some(if x < y {
                y
            } else {
                x
            }),
        }),
{
    match (a, b) {
        (None, _) => b,
        (_, None) => a,
        (Some(x), Some(y)) => if x < y {
            Some(y)
        } else {
            Some(x)
        },
    }
}

/// The highest band index of an expression.
pub fn highest_band(e: &Expr) -> (r: Option<usize>)
    ensures
        bands_needed(*e) == (match r {
            Some(i) => i as nat + 1,
            None => 0,
        }),
    decreases *e,
{
    match e {
        Expr::Band(i) => Some(*i),
        Expr::Lit(_) => None,
        Expr::Neg(a) => highest_band(a),
        Expr::Bin(_, a, b) => higher(highest_band(a), highest_band(b)),
        Expr::Call(_, args) => highest_in(args),
    }
}

fn highest_in(args: &Args) -> (r: Option<usize>)
    ensures
        args_need(*args) == (match r {
            Some(i) => i as nat + 1,
            None => 0,
        }),
    decreases *args,
{
    match args {
        Args::Last(e) => highest_band(e),
        Args::More(e, rest) => higher(highest_band(e), highest_in(rest)),
    }
}

/// The message on tokens that build no tree; `shown` is how the number at
/// the place of the fault reads.
pub open spec fn fault_text(ts: Seq<TokModel>, f: ParseFault, shown: Seq<char>) -> Seq<char> {
    match f {
        ParseFault::Expected(c, p) => "band math: expected '"@ + seq![c] + (if p < ts.len() {
            "', got "@ + band_math::described(ts[p as int], shown)
        } else {
            "', expression ends"@
        }),
        ParseFault::NoValue => "band math: expression ends where a value is due"@,
        ParseFault::ExpectedValue(p) => "band math: expected a value, got "@
            + band_math::described(ts[p as int], shown),
        ParseFault::Arity(p, n) => "band math: "@ + ts[p as int]->Name_0 + " takes "@
            + text::decimal(func_of(ts[p as int]->Name_0)->0.arity()) + " arguments, got "@
            + text::decimal(n as nat),
        ParseFault::UnknownFunction(p) => "band math: unknown function "@ + ts[p as int]->Name_0,
        ParseFault::UnknownName(p) => "band math: unknown name "@ + ts[p as int]->Name_0,
        ParseFault::Trailing(p) => "band math: trailing "@ + band_math::described(
            ts[p as int],
            shown,
        ),
    }
}

fn name_at(toks: &Vec<Tok>, p: usize) -> (r: String)
    requires
        p < toks@.len(),
        toks@[p as int]@ is Name,
    ensures
        r@ == toks@[p as int]@->Name_0,
{
    match &toks[p] {
        Tok::Name(n) => String::from_str(n.as_str()),
        _ => String::new(),
    }
}

/// The message on tokens that build no tree; `shown` is how the number at
/// the place of the fault reads.
pub fn fault_message(toks: &Vec<Tok>, f: ParseFault, shown: &str) -> (r: String)
    requires
        is_fault_of(band_math::tok_models(toks@), f),
        forall|i: int| 0 <= i < toks@.len() ==> band_math::is_lexed((#[trigger] toks@[i])@),
    ensures
        r@ == fault_text(band_math::tok_models(toks@), f, shown@),
{
    let ghost ts = band_math::tok_models(toks@);
    assert(forall|i: int| 0 <= i < ts.len() ==> #[trigger] ts[i] == toks@[i]@);
    match f {
        ParseFault::Expected(c, p) => {
            let mut r = text::joined("band math: expected '", band_math::symbol_text(c));
            let ghost head = r@;
            if p < toks.len() {
                r.append("', got ");
                assert(band_math::is_lexed(ts[p as int]));
                r.append(band_math::describe(&toks[p], shown).as_str());
                assert(r@ =~= head + ("', got "@ + band_math::described(ts[p as int], shown@)));
            } else {
                r.append("', expression ends");
            }
            r
        },
        ParseFault::NoValue => String::from_str("band math: expression ends where a value is due"),
        ParseFault::ExpectedValue(p) => {
            assert(band_math::is_lexed(ts[p as int]));
            text::joined(
                "band math: expected a value, got ",
                band_math::describe(&toks[p], shown).as_str(),
            )
        },
        ParseFault::Arity(p, n) => {
            let name = name_at(toks, p);
            let arity: usize = match Func::lookup(name.as_str()) {
                Some((_, k)) => k,
                None => 0,
            };
            proof {
                let g = func_of(name@)->0;
                assert(exists|f: Func| name@ == #[trigger] f.name());
                assert(arity == g.arity()) by {
                    assert forall|h: Func| name@ == #[trigger] h.name() implies h == g by {
                        band_math::names_differ(h, g);
                    }
                }
            }
            let mut r = text::joined("band math: ", name.as_str());
            r.append(" takes ");
            r.append(text::decimal_text(arity as u64).as_str());
            r.append(" arguments, got ");
            r.append(text::decimal_text(n as u64).as_str());
            r
        },
        ParseFault::UnknownFunction(p) => text::joined(
            "band math: unknown function ",
            name_at(toks, p).as_str(),
        ),
        ParseFault::UnknownName(p) => text::joined(
            "band math: unknown name ",
            name_at(toks, p).as_str(),
        ),
        ParseFault::Trailing(p) => {
            assert(band_math::is_lexed(ts[p as int]));
            text::joined(
                "band math: trailing ",
                band_math::describe(&toks[p], shown).as_str(),
            )
        },
    }
}

// Evaluation.

/// Arithmetic on numbers. A function of one number leaves the second out of
/// account.
#[derive(Clone, Copy, Debug, PartialEq, Eq, Structural)]
pub enum Arith {
    Plus,
    Minus,
    Times,
    Over,
    Sqrt,
    Pow,
    Log,
    Exp,
}

/// What the arithmetic that is handed in gives.
pub open spec fn computed<F: Fn(Arith, Real, Real) -> Real>(f: F, op: Arith, a: Real, b: Real) -> Real {
    choose|r: Real| f.ensures((op, a, b), r)
}

/// The arithmetic can be asked anything and always gives one answer.
pub open spec fn is_arithmetic<F: Fn(Arith, Real, Real) -> Real>(f: F) -> bool {
    &&& forall|op: Arith, a: Real, b: Real| #[trigger] f.requires((op, a, b))
    &&& forall|op: Arith, a: Real, b: Real, r: Real, s: Real| #[trigger]
        f.ensures((op, a, b), r) && #[trigger] f.ensures((op, a, b), s) ==> r == s
}

pub open spec fn nan_value() -> Real {
    Real { bits: crate::number::NAN_BITS }
}

pub open spec fn truth(hit: bool) -> Real {
    Real {
        bits: if hit {
            TRUE_BITS
        } else {
            0
        },
    }
}

/// An operator on two values. What is no number stays none.
pub open spec fn bin_value<F: Fn(Arith, Real, Real) -> Real>(
    f: F,
    op: BinOp,
    a: Real,
    b: Real,
) -> Real {
    if a.nan() || b.nan() {
        nan_value()
    } else {
        match op {
            BinOp::Plus => computed(f, Arith::Plus, a, b),
            BinOp::Minus => computed(f, Arith::Minus, a, b),
            BinOp::Times => computed(f, Arith::Times, a, b),
            BinOp::Over => computed(f, Arith::Over, a, b),
            BinOp::Less => truth(a.below(b)),
            BinOp::LessOrEqual => truth(a.at_most(b)),
            BinOp::Greater => truth(b.below(a)),
            BinOp::GreaterOrEqual => truth(b.at_most(a)),
            BinOp::Equal => truth(a.equals(b)),
            BinOp::NotEqual => truth(!a.equals(b)),
        }
    }
}

pub open spec fn any_nan(v: Seq<Real>) -> bool {
    exists|i: int| 0 <= i < v.len() && (#[trigger] v[i]).nan()
}

/// A function of its values. What is no number stays none.
pub open spec fn call_value<F: Fn(Arith, Real, Real) -> Real>(f: F, func: Func, v: Seq<Real>) -> Real {
    if any_nan(v) {
        nan_value()
    } else {
        match func {
            Func::Sqrt => computed(f, Arith::Sqrt, v[0], v[0]),
            Func::Abs => v[0].unsigned(),
            Func::Min => v[0].smaller(v[1]),
            Func::Max => v[0].larger(v[1]),
            Func::Pow => computed(f, Arith::Pow, v[0], v[1]),
            Func::Log => computed(f, Arith::Log, v[0], v[0]),
            Func::Exp => computed(f, Arith::Exp, v[0], v[0]),
            Func::Where => if v[0].equals(truth(false)) {
                v[2]
            } else {
                v[1]
            },
        }
    }
}

/// What an expression comes to at a pixel.
pub open spec fn value<F: Fn(Arith, Real, Real) -> Real>(e: Expr, bands: Seq<Real>, f: F) -> Real
    decreases e,
{
    match e {
        Expr::Band(i) => bands[i as int],
        Expr::Lit(v) => v,
        Expr::Neg(a) => value(*a, bands, f).negated(),
        Expr::Bin(op, a, b) => bin_value(f, op, value(*a, bands, f), value(*b, bands, f)),
        Expr::Call(func, args) => call_value(f, func, values(args, bands, f)),
    }
}

pub open spec fn values<F: Fn(Arith, Real, Real) -> Real>(
    args: Args,
    bands: Seq<Real>,
    f: F,
) -> Seq<Real>
    decreases args,
{
    match args {
        Args::Last(e) => seq![value(*e, bands, f)],
        Args::More(e, rest) => seq![value(*e, bands, f)] + values(*rest, bands, f),
    }
}

fn truth_of(hit: bool) -> (r: Real)
    ensures
        r == truth(hit),
{
    if hit {
        Real { bits: TRUE_BITS }
    } else {
        Real { bits: 0 }
    }
}

fn eval_bin<F: Fn(Arith, Real, Real) -> Real>(f: &F, op: BinOp, a: Real, b: Real) -> (r: Real)
    requires
        is_arithmetic(*f),
    ensures
        r == bin_value(*f, op, a, b),
{
    if a.is_nan() || b.is_nan() {
        return Real::not_a_number();
    }
    match op {
        BinOp::Plus => compute(f, Arith::Plus, a, b),
        BinOp::Minus => compute(f, Arith::Minus, a, b),
        BinOp::Times => compute(f, Arith::Times, a, b),
        BinOp::Over => compute(f, Arith::Over, a, b),
        BinOp::Less => truth_of(a.lt(b)),
        BinOp::LessOrEqual => truth_of(a.le(b)),
        BinOp::Greater => truth_of(b.lt(a)),
        BinOp::GreaterOrEqual => truth_of(b.le(a)),
        BinOp::Equal => truth_of(a.eq_num(b)),
        BinOp::NotEqual => truth_of(!a.eq_num(b)),
    }
}

fn compute<F: Fn(Arith, Real, Real) -> Real>(f: &F, op: Arith, a: Real, b: Real) -> (r: Real)
    requires
        is_arithmetic(*f),
    ensures
        r == computed(*f, op, a, b),
{
    let r = f(op, a, b);
    assert(f.ensures((op, a, b), r));
    r
}

fn eval_call<F: Fn(Arith, Real, Real) -> Real>(f: &F, func: Func, v: &Vec<Real>) -> (r: Real)
    requires
        is_arithmetic(*f),
        v@.len() == func.arity(),
    ensures
        r == call_value(*f, func, v@),
{
    for i in 0..v.len()
        invariant
            forall|k: int| 0 <= k < i ==> !(#[trigger] v@[k]).nan(),
    {
        if v[i].is_nan() {
            assert(any_nan(v@));
            return Real::not_a_number();
        }
    }
    assert(!any_nan(v@));
    match func {
        Func::Sqrt => compute(f, Arith::Sqrt, v[0], v[0]),
        Func::Abs => v[0].abs(),
        Func::Min => v[0].min(v[1]),
        Func::Max => v[0].max(v[1]),
        Func::Pow => compute(f, Arith::Pow, v[0], v[1]),
        Func::Log => compute(f, Arith::Log, v[0], v[0]),
        Func::Exp => compute(f, Arith::Exp, v[0], v[0]),
        Func::Where => if v[0].eq_num(truth_of(false)) {
            v[2]
        } else {
            v[1]
        },
    }
}

/// What an expression comes to at a pixel with these band values.
pub fn eval<F: Fn(Arith, Real, Real) -> Real>(e: &Expr, bands: &Vec<Real>, f: &F) -> (r: Real)
    requires
        sound(*e),
        bands_needed(*e) <= bands@.len(),
        is_arithmetic(*f),
    ensures
        r == value(*e, bands@, *f),
    decreases *e,
{
    match e {
        Expr::Band(i) => bands[*i],
        Expr::Lit(v) => *v,
        Expr::Neg(a) => eval(a, bands, f).neg(),
        Expr::Bin(op, a, b) => {
            let x = eval(a, bands, f);
            let y = eval(b, bands, f);
            eval_bin(f, *op, x, y)
        },
        Expr::Call(func, args) => {
            let mut vals: Vec<Real> = Vec::new();
            eval_args(args, bands, f, &mut vals);
            assert(Seq::<Real>::empty() + values(*args, bands@, *f) =~= values(*args, bands@, *f));
            eval_call(f, *func, &vals)
        },
    }
}

fn eval_args<F: Fn(Arith, Real, Real) -> Real>(
    args: &Args,
    bands: &Vec<Real>,
    f: &F,
    out: &mut Vec<Real>,
)
    requires
        sound_args(*args),
        args_need(*args) <= bands@.len(),
        is_arithmetic(*f),
    ensures
        final(out)@ == old(out)@ + values(*args, bands@, *f),
        values(*args, bands@, *f).len() == args.count(),
    decreases *args,
{
    match args {
        Args::Last(e) => {
            let v = eval(e, bands, f);
            out.push(v);
            assert(out@ =~= old(out)@ + seq![v]);
        },
        Args::More(e, rest) => {
            let v = eval(e, bands, f);
            out.push(v);
            eval_args(rest, bands, f, out);
            assert(out@ =~= old(out)@ + (seq![v] + values(**rest, bands@, *f)));
        },
    }
}

/// An expression with the bands that it needs.
#[derive(Debug)]
pub struct BandMath {
    pub root: Expr,
}

impl BandMath {
    /// Build the expression of some tokens.
    pub fn new(toks: &Vec<Tok>) -> (r: Result<BandMath, ParseFault>)
        requires
            toks@.len() < usize::MAX,
        ensures
            match expression(band_math::tok_models(toks@)) {
                Ok(e) => r matches Ok(m) && m.root == e && sound(e),
                Err(f) => r == Err::<BandMath, ParseFault>(f) && is_fault_of(
                    band_math::tok_models(toks@),
                    f,
                ),
            },
    {
        match parse(toks) {
            Ok(root) => Ok(BandMath { root }),
            Err(f) => Err(f),
        }
    }

    /// The band count that a link has to carry at least. An index past what
    /// a count can say demands more than any link carries.
    pub fn bands(&self) -> (n: u16)
        ensures
            n == (if bands_needed(self.root) <= u16::MAX {
                bands_needed(self.root) as u16
            } else {
                u16::MAX
            }),
    {
        match highest_band(&self.root) {
            None => 0,
            Some(i) => if i < 0xffff {
                (i + 1) as u16
            } else {
                0xffff
            },
        }
    }

    /// The output band over cells: `planes` holds the bands that the
    /// expression needs, nodata given as no number.
    pub fn compute<F: Fn(Arith, Real, Real) -> Real>(
        &self,
        planes: &Vec<Vec<Real>>,
        cells: usize,
        f: &F,
    ) -> (r: Vec<Real>)
        requires
            sound(self.root),
            bands_needed(self.root) <= planes@.len(),
            forall|b: int| 0 <= b < planes@.len() ==> (#[trigger] planes@[b])@.len() >= cells,
            is_arithmetic(*f),
        ensures
            r@ == Seq::new(
                cells as nat,
                |p: int|
                    value(self.root, Seq::new(planes@.len(), |b: int| planes@[b]@[p]), *f),
            ),
    {
        let mut out: Vec<Real> = Vec::new();
        for p in 0..cells
            invariant
                sound(self.root),
                bands_needed(self.root) <= planes@.len(),
                forall|b: int| 0 <= b < planes@.len() ==> (#[trigger] planes@[b])@.len() >= cells,
                is_arithmetic(*f),
                out@.len() == p,
                forall|q: int|
                    0 <= q < p ==> #[trigger] out@[q] == value(
                        self.root,
                        Seq::new(planes@.len(), |b: int| planes@[b]@[q]),
                        *f,
                    ),
        {
            let mut bands: Vec<Real> = Vec::new();
            for b in 0..planes.len()
                invariant
                    p < cells,
                    forall|b: int|
                        0 <= b < planes@.len() ==> (#[trigger] planes@[b])@.len() >= cells,
                    bands@ == Seq::new(b as nat, |k: int| planes@[k]@[p as int]),
            {
                bands.push(planes[b][p]);
                assert(bands@ =~= Seq::new((b + 1) as nat, |k: int| planes@[k]@[p as int]));
            }
            assert(bands@ =~= Seq::new(planes@.len(), |k: int| planes@[k]@[p as int]));
            out.push(eval(&self.root, &bands, f));
        }
        assert(out@ =~= Seq::new(
            cells as nat,
            |p: int| value(self.root, Seq::new(planes@.len(), |b: int| planes@[b]@[p]), *f),
        ));
        out
    }
}

/// A band as an expression reads it: no number where it has no value.
pub fn plane(data: &Vec<Real>, nodata: &Vec<bool>) -> (r: Vec<Real>)
    requires
        data@.len() == nodata@.len(),
    ensures
        r@ == Seq::new(
            data@.len(),
            |p: int|
                if nodata@[p] {
                    Real { bits: crate::number::NAN_BITS }
                } else {
                    data@[p]
                },
        ),
{
    let ghost all = Seq::new(
        data@.len(),
        |p: int|
            if nodata@[p] {
                Real { bits: crate::number::NAN_BITS }
            } else {
                data@[p]
            },
    );
    let mut r: Vec<Real> = Vec::new();
    for p in 0..data.len()
        invariant
            data@.len() == nodata@.len(),
            all.len() == data@.len(),
            r@ == all.take(p as int),
            forall|q: int|
                0 <= q < all.len() ==> #[trigger] all[q] == if nodata@[q] {
                    Real { bits: crate::number::NAN_BITS }
                } else {
                    data@[q]
                },
    {
        if nodata[p] {
            r.push(Real::not_a_number());
        } else {
            r.push(data[p]);
        }
        assert(r@ =~= all.take(p + 1));
    }
    assert(r@ =~= all);
    r
}

} // verus!
