//! Band math: one output value a pixel from an expression over the bands.
//!
//! An expression is read in three steps. [`lex`] cuts the text into
//! lexemes, [`valued`] gives the number texts among them their values, and
//! [`parse`] builds the tree. [`eval`] walks it; the arithmetic itself is
//! handed in.

use vstd::prelude::*;

use crate::number::Real;
use crate::text;

verus! {

/// What a true comparison yields.
pub const TRUE_BITS: u64 = 0x3ff0000000000000;

/// An operator between two values.
#[derive(Clone, Copy, Debug, PartialEq, Eq, Structural)]
pub enum BinOp {
    Plus,
    Minus,
    Times,
    Over,
    Less,
    LessOrEqual,
    Greater,
    GreaterOrEqual,
    Equal,
    NotEqual,
}

/// A function of one to three values.
#[derive(Clone, Copy, Debug, PartialEq, Eq, Structural)]
pub enum Func {
    Sqrt,
    Abs,
    Min,
    Max,
    Pow,
    Log,
    Exp,
    Where,
}

impl Func {
    /// The name of a function.
    pub open spec fn name(self) -> Seq<char> {
        match self {
            Func::Sqrt => "sqrt"@,
            Func::Abs => "abs"@,
            Func::Min => "min"@,
            Func::Max => "max"@,
            Func::Pow => "pow"@,
            Func::Log => "log"@,
            Func::Exp => "exp"@,
            Func::Where => "where"@,
        }
    }

    /// How many values a function takes.
    pub open spec fn arity(self) -> nat {
        match self {
            Func::Sqrt | Func::Abs | Func::Log | Func::Exp => 1,
            Func::Min | Func::Max | Func::Pow => 2,
            Func::Where => 3,
        }
    }

    /// The function of that name and how many values it takes.
    pub fn lookup(name: &str) -> (r: Option<(Func, usize)>)
        ensures
            match r {
                Some((f, n)) => name@ == f.name() && n == f.arity(),
                None => forall|f: Func| name@ != #[trigger] f.name(),
            },
    {
        if text::same_text(name, "sqrt") {
            Some((Func::Sqrt, 1))
        } else if text::same_text(name, "abs") {
            Some((Func::Abs, 1))
        } else if text::same_text(name, "min") {
            Some((Func::Min, 2))
        } else if text::same_text(name, "max") {
            Some((Func::Max, 2))
        } else if text::same_text(name, "pow") {
            Some((Func::Pow, 2))
        } else if text::same_text(name, "log") {
            Some((Func::Log, 1))
        } else if text::same_text(name, "exp") {
            Some((Func::Exp, 1))
        } else if text::same_text(name, "where") {
            Some((Func::Where, 3))
        } else {
            None
        }
    }
}

pub proof fn names_differ(f: Func, g: Func)
    requires
        f.name() == g.name(),
    ensures
        f == g,
{
    reveal_strlit("sqrt");
    reveal_strlit("abs");
    reveal_strlit("min");
    reveal_strlit("max");
    reveal_strlit("pow");
    reveal_strlit("log");
    reveal_strlit("exp");
    reveal_strlit("where");
    assert("sqrt"@[0] == 's' && "abs"@[0] == 'a' && "min"@[1] == 'i' && "max"@[1] == 'a'
        && "pow"@[0] == 'p' && "log"@[0] == 'l' && "exp"@[0] == 'e' && "where"@[0] == 'w'
        && "min"@[0] == 'm' && "max"@[0] == 'm');
}

// Lexemes.

/// A piece of an expression's text.
#[derive(Debug)]
pub enum Lexeme {
    Num(String),
    Name(String),
    Sym(char),
    Comparison(BinOp),
}

#[verifier::ext_equal]
pub enum LexemeModel {
    Num(Seq<char>),
    Name(Seq<char>),
    Sym(char),
    Comparison(BinOp),
}

impl View for Lexeme {
    type V = LexemeModel;

    open spec fn view(&self) -> LexemeModel {
        match *self {
            Lexeme::Num(t) => LexemeModel::Num(t@),
            Lexeme::Name(t) => LexemeModel::Name(t@),
            Lexeme::Sym(c) => LexemeModel::Sym(c),
            Lexeme::Comparison(op) => LexemeModel::Comparison(op),
        }
    }
}

/// Why a text has no lexemes: at which character, or which stretch of it.
#[derive(Clone, Copy, Debug, PartialEq, Eq, Structural)]
pub enum LexFault {
    BadNumber(usize, usize),
    Unexpected(usize),
}

pub open spec fn is_space(c: char) -> bool {
    let n = c as u32;
    9 <= n <= 13 || n == 0x20 || n == 0x85 || n == 0xa0 || n == 0x1680 || 0x2000 <= n <= 0x200a || n
        == 0x2028 || n == 0x2029 || n == 0x202f || n == 0x205f || n == 0x3000
}

pub open spec fn is_letter(c: char) -> bool {
    'a' <= c <= 'z' || 'A' <= c <= 'Z'
}

pub open spec fn in_number(c: char) -> bool {
    text::is_digit(c) || c == '.'
}

pub open spec fn in_name(c: char) -> bool {
    is_letter(c) || text::is_digit(c) || c == '_'
}

pub open spec fn is_symbol(c: char) -> bool {
    c == '+' || c == '-' || c == '*' || c == '/' || c == '(' || c == ')' || c == ','
}

/// Where the run of number or name characters from a place on ends.
pub open spec fn run_end(cs: Seq<char>, i: int, number: bool) -> int
    decreases cs.len() - i,
{
    if 0 <= i < cs.len() && (if number {
        in_number(cs[i])
    } else {
        in_name(cs[i])
    }) {
        run_end(cs, i + 1, number)
    } else {
        i
    }
}

/// How many points a text holds.
pub open spec fn points_in(s: Seq<char>) -> nat
    decreases s.len(),
{
    if s.len() == 0 {
        0
    } else {
        points_in(s.drop_last()) + (if s.last() == '.' {
            1nat
        } else {
            0
        })
    }
}

/// A run of digits and points is a number: it has a digit and at most one
/// point.
pub open spec fn is_number(s: Seq<char>) -> bool {
    points_in(s) <= 1 && exists|i: int| 0 <= i < s.len() && text::is_digit(#[trigger] s[i])
}

/// A text stands at a place.
pub open spec fn stands_at(cs: Seq<char>, at: int, t: Seq<char>) -> bool {
    forall|i: int| 0 <= i < t.len() ==> at + i < cs.len() && cs[at + i] == #[trigger] t[i]
}

/// The comparison at a place and its length; the longer spelling is tried
/// first.
pub open spec fn comparison_at(cs: Seq<char>, i: int) -> Option<(BinOp, int)> {
    let c = cs[i];
    let eq = i + 1 < cs.len() && cs[i + 1] == '=';
    if c == '<' && eq {
        Some((BinOp::LessOrEqual, 2))
    } else if c == '>' && eq {
        Some((BinOp::GreaterOrEqual, 2))
    } else if c == '=' && eq {
        Some((BinOp::Equal, 2))
    } else if c == '!' && eq {
        Some((BinOp::NotEqual, 2))
    } else if c == '<' {
        Some((BinOp::Less, 1))
    } else if c == '>' {
        Some((BinOp::Greater, 1))
    } else {
        None
    }
}

/// Lexemes in front of others.
pub open spec fn in_front(
    s: Seq<LexemeModel>,
    rest: Result<Seq<LexemeModel>, LexFault>,
) -> Result<Seq<LexemeModel>, LexFault> {
    match rest {
        Ok(t) => Ok(s + t),
        Err(f) => Err(f),
    }
}

/// The lexemes of a text from a place on.
pub open spec fn lexemes(cs: Seq<char>, i: int) -> Result<Seq<LexemeModel>, LexFault>
    decreases cs.len() - i,
{
    if i < 0 || i >= cs.len() {
        Ok(Seq::empty())
    } else if is_space(cs[i]) {
        lexemes(cs, i + 1)
    } else if in_number(cs[i]) {
        let j = run_end(cs, i, true);
        if j <= i || j > cs.len() || !is_number(cs.subrange(i, j)) {
            Err(LexFault::BadNumber(i as usize, j as usize))
        } else {
            in_front(seq![LexemeModel::Num(cs.subrange(i, j))], lexemes(cs, j))
        }
    } else if is_letter(cs[i]) {
        let j = run_end(cs, i, false);
        if j <= i || j > cs.len() {
            Err(LexFault::Unexpected(i as usize))
        } else {
            in_front(seq![LexemeModel::Name(cs.subrange(i, j))], lexemes(cs, j))
        }
    } else if is_symbol(cs[i]) {
        in_front(seq![LexemeModel::Sym(cs[i])], lexemes(cs, i + 1))
    } else {
        match comparison_at(cs, i) {
            Some((op, n)) => if n <= 0 {
                Err(LexFault::Unexpected(i as usize))
            } else {
                in_front(seq![LexemeModel::Comparison(op)], lexemes(cs, i + n))
            },
            None => Err(LexFault::Unexpected(i as usize)),
        }
    }
}

pub open spec fn lexeme_models(v: Seq<Lexeme>) -> Seq<LexemeModel> {
    Seq::new(v.len(), |i: int| v[i]@)
}

fn space(c: char) -> (r: bool)
    ensures
        r == is_space(c),
{
    let n: u32 = c as u32;
    (9 <= n && n <= 13) || n == 0x20 || n == 0x85 || n == 0xa0 || n == 0x1680 || (0x2000 <= n && n
        <= 0x200a) || n == 0x2028 || n == 0x2029 || n == 0x202f || n == 0x205f || n == 0x3000
}

fn letter(c: char) -> (r: bool)
    ensures
        r == is_letter(c),
{
    ('a' <= c && c <= 'z') || ('A' <= c && c <= 'Z')
}

fn digit(c: char) -> (r: bool)
    ensures
        r == text::is_digit(c),
{
    '0' <= c && c <= '9'
}

fn symbol(c: char) -> (r: bool)
    ensures
        r == is_symbol(c),
{
    c == '+' || c == '-' || c == '*' || c == '/' || c == '(' || c == ')' || c == ','
}

/// Whether a text stands at a place of a list of characters.
pub fn starts_with(chars: &Vec<char>, at: usize, t: &str) -> (r: bool)
    requires
        at <= chars@.len(),
    ensures
        r == stands_at(chars@, at as int, t@),
{
    let wanted = text::chars_of(t);
    let left: usize = chars.len() - at;
    if wanted.len() > left {
        proof {
            let i = t@.len() - 1;
            if stands_at(chars@, at as int, t@) {
                assert(chars@[at + i] == t@[i]);
            }
        }
        return false;
    }
    let len: usize = chars.len();
    for i in 0..wanted.len()
        invariant
            len == chars@.len(),
            wanted@ == t@,
            at + wanted@.len() <= chars@.len(),
            forall|k: int| 0 <= k < i ==> chars@[at + k] == #[trigger] t@[k],
    {
        assert(at + i < len);
        if chars[at + i] != wanted[i] {
            assert(chars@[at + i] != t@[i as int]);
            return false;
        }
    }
    true
}

fn comparison(chars: &Vec<char>, i: usize) -> (r: Option<(BinOp, usize)>)
    requires
        i < chars@.len(),
    ensures
        match comparison_at(chars@, i as int) {
            Some((op, n)) => r == Some((op, n as usize)) && i + n <= chars@.len() && n > 0,
            None => r is None,
        },
{
    proof {
        reveal_strlit("<=");
        reveal_strlit(">=");
        reveal_strlit("==");
        reveal_strlit("!=");
        reveal_strlit("<");
        reveal_strlit(">");
        let cs = chars@;
        let a = i as int;
        pair_stands(cs, a, "<="@);
        pair_stands(cs, a, ">="@);
        pair_stands(cs, a, "=="@);
        pair_stands(cs, a, "!="@);
        assert(stands_at(cs, a, "<"@) == (cs[a] == '<')) by {
            assert("<"@[0] == '<');
        }
        assert(stands_at(cs, a, ">"@) == (cs[a] == '>')) by {
            assert(">"@[0] == '>');
        }
    }
    if starts_with(chars, i, "<=") {
        Some((BinOp::LessOrEqual, 2))
    } else if starts_with(chars, i, ">=") {
        Some((BinOp::GreaterOrEqual, 2))
    } else if starts_with(chars, i, "==") {
        Some((BinOp::Equal, 2))
    } else if starts_with(chars, i, "!=") {
        Some((BinOp::NotEqual, 2))
    } else if starts_with(chars, i, "<") {
        Some((BinOp::Less, 1))
    } else if starts_with(chars, i, ">") {
        Some((BinOp::Greater, 1))
    } else {
        None
    }
}

proof fn pair_stands(cs: Seq<char>, at: int, t: Seq<char>)
    requires
        0 <= at < cs.len(),
        t.len() == 2,
    ensures
        stands_at(cs, at, t) == (cs[at] == t[0] && at + 1 < cs.len() && cs[at + 1] == t[1]),
{
    if stands_at(cs, at, t) {
        assert(cs[at + 0] == t[0]);
        assert(cs[at + 1] == t[1]);
    }
}

fn in_run(c: char, number: bool) -> (r: bool)
    ensures
        r == (if number {
            in_number(c)
        } else {
            in_name(c)
        }),
{
    if number {
        digit(c) || c == '.'
    } else {
        letter(c) || digit(c) || c == '_'
    }
}

fn run(chars: &Vec<char>, from: usize, number: bool) -> (j: usize)
    requires
        from <= chars@.len(),
    ensures
        from <= j <= chars@.len(),
        j == run_end(chars@, from as int, number),
        from < chars@.len() && (if number {
            in_number(chars@[from as int])
        } else {
            in_name(chars@[from as int])
        }) ==> from < j,
{
    let mut j: usize = from;
    while j < chars.len() && in_run(chars[j], number)
        invariant
            from <= j <= chars@.len(),
            run_end(chars@, from as int, number) == run_end(chars@, j as int, number),
        decreases chars@.len() - j,
    {
        j = j + 1;
    }
    j
}

fn text_between(src: &str, i: usize, j: usize) -> (r: String)
    requires
        i <= j <= src@.len(),
    ensures
        r@ == src@.subrange(i as int, j as int),
{
    String::from_str(src.substring_char(i, j))
}

fn number_between(chars: &Vec<char>, i: usize, j: usize) -> (r: bool)
    requires
        i <= j <= chars@.len(),
    ensures
        r == is_number(chars@.subrange(i as int, j as int)),
{
    let ghost s = chars@.subrange(i as int, j as int);
    let mut points: usize = 0;
    let mut has_digit: bool = false;
    assert(s.take(0) =~= Seq::empty());
    let mut k: usize = i;
    while k < j
        invariant
            i <= k <= j <= chars@.len(),
            s == chars@.subrange(i as int, j as int),
            points == points_in(s.take(k - i)),
            points <= k - i,
            has_digit == exists|q: int| 0 <= q < k - i && text::is_digit(#[trigger] s[q]),
        decreases j - k,
    {
        assert(s.take(k + 1 - i).drop_last() =~= s.take(k - i));
        assert(s[k - i] == chars@[k as int]);
        if chars[k] == '.' {
            points = points + 1;
        }
        if digit(chars[k]) {
            assert(text::is_digit(s[k - i]));
            has_digit = true;
        }
        k = k + 1;
    }
    assert(s.take(j - i) =~= s);
    points <= 1 && has_digit
}

proof fn front_of_front(
    a: Seq<LexemeModel>,
    x: LexemeModel,
    rest: Result<Seq<LexemeModel>, LexFault>,
)
    ensures
        in_front(a, in_front(seq![x], rest)) == in_front(a.push(x), rest),
{
    if let Ok(t) = rest {
        assert(a + (seq![x] + t) =~= a.push(x) + t);
    }
}

/// A lexeme that can come out of a text.
pub open spec fn is_cut(t: LexemeModel) -> bool {
    match t {
        LexemeModel::Sym(c) => is_symbol(c),
        LexemeModel::Comparison(op) => is_comparison(op),
        _ => true,
    }
}

/// A fault of a text lies inside it.
pub open spec fn lies_inside(src: Seq<char>, f: LexFault) -> bool {
    match f {
        LexFault::BadNumber(i, j) => i <= j <= src.len(),
        LexFault::Unexpected(i) => i < src.len() && i < usize::MAX,
    }
}

/// Cut an expression into lexemes.
pub fn lex(src: &str) -> (r: Result<Vec<Lexeme>, LexFault>)
    ensures
        match lexemes(src@, 0) {
            Ok(s) => r matches Ok(v) && lexeme_models(v@) == s,
            Err(f) => r == Err::<Vec<Lexeme>, LexFault>(f) && lies_inside(src@, f),
        },
        r matches Ok(v) ==> forall|i: int| 0 <= i < v@.len() ==> is_cut((#[trigger] v@[i])@),
{
    let chars = text::chars_of(src);
    let mut out: Vec<Lexeme> = Vec::new();
    let mut i: usize = 0;
    proof {
        assert(lexeme_models(out@) =~= Seq::empty());
        if let Ok(t) = lexemes(src@, 0) {
            assert(Seq::<LexemeModel>::empty() + t =~= t);
        }
    }
    while i < chars.len()
        invariant
            chars@ == src@,
            i <= chars@.len(),
            lexemes(src@, 0) == in_front(lexeme_models(out@), lexemes(src@, i as int)),
            forall|k: int| 0 <= k < out@.len() ==> is_cut((#[trigger] out@[k])@),
        decreases chars@.len() - i,
    {
        let c = chars[i];
        let ghost before = lexeme_models(out@);
        if space(c) {
            i = i + 1;
        } else {
            let mut next: usize = i + 1;
            let piece: Lexeme;
            if digit(c) || c == '.' {
                next = run(&chars, i, true);
                if !number_between(&chars, i, next) {
                    return Err(LexFault::BadNumber(i, next));
                }
                piece = Lexeme::Num(text_between(src, i, next));
            } else if letter(c) {
                next = run(&chars, i, false);
                piece = Lexeme::Name(text_between(src, i, next));
            } else if symbol(c) {
                piece = Lexeme::Sym(c);
            } else {
                match comparison(&chars, i) {
                    Some((op, n)) => {
                        next = i + n;
                        piece = Lexeme::Comparison(op);
                    },
                    None => {
                        return Err(LexFault::Unexpected(i));
                    },
                }
            }
            let ghost x = piece@;
            out.push(piece);
            proof {
                assert(lexeme_models(out@) =~= before.push(x));
                front_of_front(before, x, lexemes(src@, next as int));
            }
            i = next;
        }
    }
    proof {
        assert(lexeme_models(out@) + Seq::<LexemeModel>::empty() =~= lexeme_models(out@));
    }
    Ok(out)
}

// Tokens.

/// A lexeme with the value of its number.
#[derive(Debug)]
pub enum Tok {
    Num(Real),
    Name(String),
    Sym(char),
    Comparison(BinOp),
}

#[verifier::ext_equal]
pub enum TokModel {
    Num(Real),
    Name(Seq<char>),
    Sym(char),
    Comparison(BinOp),
}

impl View for Tok {
    type V = TokModel;

    open spec fn view(&self) -> TokModel {
        match *self {
            Tok::Num(v) => TokModel::Num(v),
            Tok::Name(t) => TokModel::Name(t@),
            Tok::Sym(c) => TokModel::Sym(c),
            Tok::Comparison(op) => TokModel::Comparison(op),
        }
    }
}

pub open spec fn tok_models(v: Seq<Tok>) -> Seq<TokModel> {
    Seq::new(v.len(), |i: int| v[i]@)
}

/// How many of the first `n` lexemes are numbers.
pub open spec fn numbers_before(v: Seq<LexemeModel>, n: int) -> nat
    decreases n,
{
    if n <= 0 {
        0
    } else {
        numbers_before(v, n - 1) + (if v[n - 1] is Num {
            1nat
        } else {
            0
        })
    }
}

/// A lexeme as a token; numbers take their values in turn.
pub open spec fn valued_at(v: Seq<LexemeModel>, values: Seq<Real>, i: int) -> TokModel {
    match v[i] {
        LexemeModel::Num(_) => TokModel::Num(values[numbers_before(v, i) as int]),
        LexemeModel::Name(t) => TokModel::Name(t),
        LexemeModel::Sym(c) => TokModel::Sym(c),
        LexemeModel::Comparison(op) => TokModel::Comparison(op),
    }
}

/// The texts of the numbers, in turn.
pub fn number_texts(v: &Vec<Lexeme>) -> (r: Vec<String>)
    ensures
        r@.len() == numbers_before(lexeme_models(v@), v@.len() as int),
        forall|i: int|
            0 <= i < v@.len() && (#[trigger] v@[i])@ is Num ==> {
                let k = numbers_before(lexeme_models(v@), i) as int;
                k < r@.len() && r@[k]@ == v@[i]@->Num_0
            },
{
    let ghost m = lexeme_models(v@);
    let mut r: Vec<String> = Vec::new();
    for i in 0..v.len()
        invariant
            m == lexeme_models(v@),
            r@.len() == numbers_before(m, i as int),
            forall|j: int|
                0 <= j < i && (#[trigger] v@[j])@ is Num ==> {
                    let k = numbers_before(m, j) as int;
                    k < r@.len() && r@[k]@ == v@[j]@->Num_0
                },
    {
        assert(m[i as int] == v@[i as int]@);
        if let Lexeme::Num(t) = &v[i] {
            r.push(String::from_str(t.as_str()));
        }
    }
    r
}

proof fn numbers_grow(v: Seq<LexemeModel>, a: int, b: int)
    requires
        a <= b,
    ensures
        numbers_before(v, a) <= numbers_before(v, b),
    decreases b - a,
{
    if a < b {
        numbers_grow(v, a, b - 1);
    }
}

/// Give the numbers among the lexemes their values, in turn.
pub fn valued(v: Vec<Lexeme>, values: &Vec<Real>) -> (r: Vec<Tok>)
    requires
        values@.len() == numbers_before(lexeme_models(v@), v@.len() as int),
    ensures
        tok_models(r@) == Seq::new(
            v@.len(),
            |i: int| valued_at(lexeme_models(v@), values@, i),
        ),
        (forall|i: int| 0 <= i < v@.len() ==> is_cut((#[trigger] v@[i])@)) ==> forall|i: int|
            0 <= i < r@.len() ==> is_lexed((#[trigger] r@[i])@),
{
    let ghost m = lexeme_models(v@);
    let mut r: Vec<Tok> = Vec::new();
    let mut k: usize = 0;
    let count: usize = values.len();
    for i in 0..v.len()
        invariant
            m == lexeme_models(v@),
            count == values@.len(),
            values@.len() == numbers_before(m, v@.len() as int),
            k == numbers_before(m, i as int),
            r@.len() == i,
            forall|j: int| 0 <= j < i ==> (#[trigger] r@[j])@ == valued_at(m, values@, j),
    {
        assert(m[i as int] == v@[i as int]@);
        match &v[i] {
            Lexeme::Num(_) => {
                proof {
                    numbers_grow(m, i + 1, v@.len() as int);
                    assert(k < count);
                }
                r.push(Tok::Num(values[k]));
                k = k + 1;
            },
            Lexeme::Name(t) => {
                r.push(Tok::Name(String::from_str(t.as_str())));
            },
            Lexeme::Sym(c) => {
                r.push(Tok::Sym(*c));
            },
            Lexeme::Comparison(op) => {
                r.push(Tok::Comparison(*op));
            },
        }
    }
    assert(tok_models(r@) =~= Seq::new(v@.len(), |i: int| valued_at(m, values@, i)));
    assert(forall|i: int| 0 <= i < v@.len() ==> #[trigger] m[i] == v@[i]@);
    assert forall|i: int|
        0 <= i < r@.len() && (forall|i: int| 0 <= i < v@.len() ==> is_cut((#[trigger] v@[i])@)) implies is_lexed(
        (#[trigger] r@[i])@,
    ) by {
        assert(is_cut(v@[i]@));
        assert(r@[i]@ == valued_at(m, values@, i));
    }
    r
}

// Messages.

pub open spec fn is_comparison(op: BinOp) -> bool {
    !(op is Plus || op is Minus || op is Times || op is Over)
}

/// The spelling of a comparison.
pub open spec fn spelling(op: BinOp) -> Seq<char> {
    match op {
        BinOp::LessOrEqual => "<="@,
        BinOp::GreaterOrEqual => ">="@,
        BinOp::Equal => "=="@,
        BinOp::NotEqual => "!="@,
        BinOp::Less => "<"@,
        BinOp::Greater => ">"@,
        _ => ""@,
    }
}

/// The spelling of a comparison.
pub fn comparison_text(op: BinOp) -> (r: &'static str)
    requires
        is_comparison(op),
    ensures
        r@ == spelling(op),
{
    match op {
        BinOp::LessOrEqual => "<=",
        BinOp::GreaterOrEqual => ">=",
        BinOp::Equal => "==",
        BinOp::NotEqual => "!=",
        BinOp::Less => "<",
        BinOp::Greater => ">",
        _ => "",
    }
}

/// A symbol as a text.
pub fn symbol_text(c: char) -> (r: &'static str)
    requires
        is_symbol(c),
    ensures
        r@ == seq![c],
{
    proof {
        reveal_strlit("+");
        reveal_strlit("-");
        reveal_strlit("*");
        reveal_strlit("/");
        reveal_strlit("(");
        reveal_strlit(")");
        reveal_strlit(",");
        assert("+"@ =~= seq!['+']);
        assert("-"@ =~= seq!['-']);
        assert("*"@ =~= seq!['*']);
        assert("/"@ =~= seq!['/']);
        assert("("@ =~= seq!['(']);
        assert(")"@ =~= seq![')']);
        assert(","@ =~= seq![',']);
    }
    match c {
        '+' => "+",
        '-' => "-",
        '*' => "*",
        '/' => "/",
        '(' => "(",
        ')' => ")",
        _ => ",",
    }
}

/// A token that can come out of a text.
pub open spec fn is_lexed(t: TokModel) -> bool {
    match t {
        TokModel::Sym(c) => is_symbol(c),
        TokModel::Comparison(op) => is_comparison(op),
        _ => true,
    }
}

/// How a token reads in a message; `shown` is how its number reads.
pub open spec fn described(t: TokModel, shown: Seq<char>) -> Seq<char> {
    match t {
        TokModel::Num(_) => shown,
        TokModel::Name(n) => n,
        TokModel::Sym(c) => "'"@ + seq![c] + "'"@,
        TokModel::Comparison(op) => "'"@ + spelling(op) + "'"@,
    }
}

fn quoted(t: &str) -> (r: String)
    ensures
        r@ == "'"@ + t@ + "'"@,
{
    let mut r = text::joined("'", t);
    r.append("'");
    r
}

/// How a token reads in a message; `shown` is how its number reads.
pub fn describe(t: &Tok, shown: &str) -> (r: String)
    requires
        is_lexed(t@),
    ensures
        r@ == described(t@, shown@),
{
    match t {
        Tok::Num(_) => String::from_str(shown),
        Tok::Name(n) => String::from_str(n.as_str()),
        Tok::Sym(c) => quoted(symbol_text(*c)),
        Tok::Comparison(op) => quoted(comparison_text(*op)),
    }
}

/// The message on a text that cannot be cut into lexemes.
pub open spec fn lex_text(src: Seq<char>, f: LexFault) -> Seq<char> {
    match f {
        LexFault::BadNumber(i, j) => "band math: bad number "@ + src.subrange(i as int, j as int),
        LexFault::Unexpected(i) => "band math: unexpected character '"@ + src.subrange(
            i as int,
            i + 1,
        ) + "'"@,
    }
}

/// The message on a text that cannot be cut into lexemes.
pub fn lex_message(src: &str, f: LexFault) -> (r: String)
    requires
        lies_inside(src@, f),
    ensures
        r@ == lex_text(src@, f),
{
    match f {
        LexFault::BadNumber(i, j) => text::joined(
            "band math: bad number ",
            src.substring_char(i, j),
        ),
        LexFault::Unexpected(i) => {
            let mut r = text::joined(
                "band math: unexpected character '",
                src.substring_char(i, i + 1),
            );
            r.append("'");
            r
        },
    }
}

} // verus!
