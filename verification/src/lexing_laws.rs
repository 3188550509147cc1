//! How the text of a formula falls apart into lexemes.

use vstd::prelude::*;

use crate::band_math;
use crate::band_math::{BinOp, LexemeModel, TokModel};
use crate::number::Real;
use crate::text;

verus! {

// Runs.

/// Every character of a text is a digit.
pub open spec fn all_digits(s: Seq<char>) -> bool {
    forall|i: int| 0 <= i < s.len() ==> '0' <= #[trigger] s[i] && s[i] <= '9'
}

proof fn a_run_ends_there(cs: Seq<char>, i: int, j: int, number: bool)
    requires
        0 <= i <= j <= cs.len(),
        forall|k: int|
            i <= k < j ==> (if number {
                band_math::in_number(#[trigger] cs[k])
            } else {
                band_math::in_name(cs[k])
            }),
        j < cs.len() ==> !(if number {
            band_math::in_number(cs[j])
        } else {
            band_math::in_name(cs[j])
        }),
    ensures
        band_math::run_end(cs, i, number) == j,
    decreases j - i,
{
    if i < j {
        a_run_ends_there(cs, i + 1, j, number);
    }
}

proof fn digits_hold_no_point(s: Seq<char>)
    requires
        all_digits(s),
    ensures
        band_math::points_in(s) == 0,
    decreases s.len(),
{
    if s.len() > 0 {
        let rest = s.drop_last();
        assert forall|i: int| 0 <= i < rest.len() implies '0' <= #[trigger] rest[i] && rest[i]
            <= '9' by {
            assert(rest[i] == s[i]);
        }
        digits_hold_no_point(rest);
        assert(s[s.len() - 1] == s.last());
    }
}

proof fn points_add_up(a: Seq<char>, b: Seq<char>)
    ensures
        band_math::points_in(a + b) == band_math::points_in(a) + band_math::points_in(b),
    decreases b.len(),
{
    if b.len() == 0 {
        assert(a + b =~= a);
    } else {
        assert((a + b).drop_last() =~= a + b.drop_last());
        assert((a + b).last() == b.last());
        points_add_up(a, b.drop_last());
    }
}

// Numbers.

/// Digits are a number, and so are digits with a point among them or at
/// either end; a point alone is none, nor is anything with two points.
pub proof fn a_number_is_digits_and_a_point(a: Seq<char>, b: Seq<char>, c: Seq<char>)
    requires
        all_digits(a),
        all_digits(b),
    ensures
        band_math::is_number(a) <==> a.len() > 0,
        band_math::is_number(a + seq!['.'] + b) <==> a.len() + b.len() > 0,
        !band_math::is_number(a + seq!['.'] + b + seq!['.'] + c),
{
    let p = seq!['.'];
    digits_hold_no_point(a);
    digits_hold_no_point(b);
    assert(p.drop_last() =~= Seq::<char>::empty());
    assert(p.last() == '.');
    assert(band_math::points_in(p.drop_last()) == 0);
    assert(band_math::points_in(p) == 1);
    points_add_up(a, p);
    points_add_up(a + p, b);
    points_add_up(a + p + b, p);
    points_add_up(a + p + b + p, c);
    if a.len() > 0 {
        assert(text::is_digit(a[0]));
        assert((a + p + b)[0] == a[0]);
    }
    if b.len() > 0 {
        assert(text::is_digit(b[0]));
        assert((a + p + b)[a.len() as int + 1] == b[0]);
    }
    if a.len() == 0 && b.len() == 0 {
        assert(a + p + b =~= p);
        assert(p[0] == '.');
    }
}

// Lexemes, each with what comes after it.

/// A space between lexemes says nothing.
pub proof fn spaces_say_nothing(cs: Seq<char>, i: int)
    requires
        0 <= i < cs.len(),
        cs[i] == ' ' || cs[i] == '\t' || cs[i] == '\n' || cs[i] == '\r',
    ensures
        band_math::lexemes(cs, i) == band_math::lexemes(cs, i + 1),
{
}

/// After the last character there is nothing.
pub proof fn a_text_ends_where_it_ends(cs: Seq<char>)
    ensures
        band_math::lexemes(cs, cs.len() as int) == Ok::<Seq<LexemeModel>, band_math::LexFault>(
            Seq::empty(),
        ),
{
}

/// An arithmetic sign, a bracket or a comma is a lexeme by itself.
pub proof fn a_sign_stands_for_itself(cs: Seq<char>, i: int, after: Seq<LexemeModel>)
    requires
        0 <= i < cs.len(),
        cs[i] == '+' || cs[i] == '-' || cs[i] == '*' || cs[i] == '/' || cs[i] == '(' || cs[i] == ')'
            || cs[i] == ',',
        band_math::lexemes(cs, i + 1) == Ok::<Seq<LexemeModel>, band_math::LexFault>(after),
    ensures
        band_math::lexemes(cs, i) == Ok::<Seq<LexemeModel>, band_math::LexFault>(
            seq![LexemeModel::Sym(cs[i])] + after,
        ),
{
}

/// A comparison is what it is written as: a sign with an equals sign behind
/// it is one lexeme, and `<` or `>` without one is another.
pub proof fn a_comparison_is_as_written(
    cs: Seq<char>,
    i: int,
    after: Seq<LexemeModel>,
    beyond: Seq<LexemeModel>,
)
    requires
        0 <= i < cs.len(),
        band_math::lexemes(cs, i + 1) == Ok::<Seq<LexemeModel>, band_math::LexFault>(after)
            || (i + 1 < cs.len() && cs[i + 1] == '='),
        band_math::lexemes(cs, i + 2) == Ok::<Seq<LexemeModel>, band_math::LexFault>(beyond),
    ensures
        ({
            let r = band_math::lexemes(cs, i);
            let equals = i + 1 < cs.len() && cs[i + 1] == '=';
            &&& cs[i] == '<' && equals ==> r == Ok::<Seq<LexemeModel>, band_math::LexFault>(
                seq![LexemeModel::Comparison(BinOp::LessOrEqual)] + beyond,
            )
            &&& cs[i] == '>' && equals ==> r == Ok::<Seq<LexemeModel>, band_math::LexFault>(
                seq![LexemeModel::Comparison(BinOp::GreaterOrEqual)] + beyond,
            )
            &&& cs[i] == '=' && equals ==> r == Ok::<Seq<LexemeModel>, band_math::LexFault>(
                seq![LexemeModel::Comparison(BinOp::Equal)] + beyond,
            )
            &&& cs[i] == '!' && equals ==> r == Ok::<Seq<LexemeModel>, band_math::LexFault>(
                seq![LexemeModel::Comparison(BinOp::NotEqual)] + beyond,
            )
            &&& cs[i] == '<' && !equals ==> r == Ok::<Seq<LexemeModel>, band_math::LexFault>(
                seq![LexemeModel::Comparison(BinOp::Less)] + after,
            )
            &&& cs[i] == '>' && !equals ==> r == Ok::<Seq<LexemeModel>, band_math::LexFault>(
                seq![LexemeModel::Comparison(BinOp::Greater)] + after,
            )
            &&& cs[i] == '=' && !equals ==> r is Err
            &&& cs[i] == '!' && !equals ==> r is Err
        }),
{
}

/// A number is as long as digits and points go on, and a run of them that is
/// no number has no lexemes.
pub proof fn a_number_is_the_whole_run(cs: Seq<char>, i: int, j: int, after: Seq<LexemeModel>)
    requires
        0 <= i < j <= cs.len(),
        forall|k: int|
            i <= k < j ==> '0' <= #[trigger] cs[k] && cs[k] <= '9' || cs[k] == '.',
        j < cs.len() ==> !('0' <= cs[j] && cs[j] <= '9' || cs[j] == '.'),
        band_math::lexemes(cs, j) == Ok::<Seq<LexemeModel>, band_math::LexFault>(after),
    ensures
        band_math::is_number(cs.subrange(i, j)) ==> band_math::lexemes(cs, i) == Ok::<
            Seq<LexemeModel>,
            band_math::LexFault,
        >(seq![LexemeModel::Num(cs.subrange(i, j))] + after),
        !band_math::is_number(cs.subrange(i, j)) ==> band_math::lexemes(cs, i) is Err,
{
    assert forall|k: int| i <= k < j implies band_math::in_number(#[trigger] cs[k]) by {}
    a_run_ends_there(cs, i, j, true);
    assert('0' <= cs[i] && cs[i] <= '9' || cs[i] == '.');
}

/// A name begins with a letter and is as long as letters, digits and
/// underscores go on.
pub proof fn a_name_is_the_whole_run(cs: Seq<char>, i: int, j: int, after: Seq<LexemeModel>)
    requires
        0 <= i < j <= cs.len(),
        'a' <= cs[i] && cs[i] <= 'z' || 'A' <= cs[i] && cs[i] <= 'Z',
        forall|k: int|
            i <= k < j ==> 'a' <= #[trigger] cs[k] && cs[k] <= 'z' || 'A' <= cs[k] && cs[k] <= 'Z'
                || '0' <= cs[k] && cs[k] <= '9' || cs[k] == '_',
        j < cs.len() ==> !('a' <= cs[j] && cs[j] <= 'z' || 'A' <= cs[j] && cs[j] <= 'Z' || '0'
            <= cs[j] && cs[j] <= '9' || cs[j] == '_'),
        band_math::lexemes(cs, j) == Ok::<Seq<LexemeModel>, band_math::LexFault>(after),
    ensures
        band_math::lexemes(cs, i) == Ok::<Seq<LexemeModel>, band_math::LexFault>(
            seq![LexemeModel::Name(cs.subrange(i, j))] + after,
        ),
{
    assert forall|k: int| i <= k < j implies band_math::in_name(#[trigger] cs[k]) by {}
    a_run_ends_there(cs, i, j, false);
}

// Values.

/// The numbers of a formula take their values in turn, the first number the
/// first value and each later one the next, and everything else stays.
pub proof fn numbers_take_their_values_in_turn(v: Seq<LexemeModel>, values: Seq<Real>, i: int, j: int)
    requires
        0 <= i < j < v.len(),
        v[i] is Num,
        v[j] is Num,
        forall|k: int| i < k < j ==> !(#[trigger] v[k] is Num),
        band_math::numbers_before(v, i) + 1 < values.len(),
    ensures
        (forall|k: int| 0 <= k < i ==> !(#[trigger] v[k] is Num)) ==> band_math::valued_at(
            v,
            values,
            i,
        ) == TokModel::Num(values[0]),
        exists|n: int|
            0 <= n && n + 1 < values.len() && band_math::valued_at(v, values, i) == TokModel::Num(
                #[trigger] values[n],
            ) && band_math::valued_at(v, values, j) == TokModel::Num(values[n + 1]),
{
    let n = band_math::numbers_before(v, i) as int;
    none_between(v, i + 1, j);
    assert(band_math::numbers_before(v, j) == n + 1);
    assert(band_math::valued_at(v, values, i) == TokModel::Num(values[n]));
    assert(band_math::valued_at(v, values, j) == TokModel::Num(values[n + 1]));
    if forall|k: int| 0 <= k < i ==> !(#[trigger] v[k] is Num) {
        none_between(v, 0, i);
    }
}

proof fn none_between(v: Seq<LexemeModel>, i: int, j: int)
    requires
        0 <= i <= j <= v.len(),
        forall|k: int| i <= k < j ==> !(#[trigger] v[k] is Num),
    ensures
        band_math::numbers_before(v, j) == band_math::numbers_before(v, i),
    decreases j - i,
{
    if i < j {
        none_between(v, i, j - 1);
        assert(!(v[j - 1] is Num));
    }
}

/// What is no number keeps its name, its sign or its comparison.
pub proof fn other_lexemes_stay(v: Seq<LexemeModel>, values: Seq<Real>, i: int)
    ensures
        match v[i] {
            LexemeModel::Num(_) => band_math::valued_at(v, values, i) is Num,
            LexemeModel::Name(t) => band_math::valued_at(v, values, i) == TokModel::Name(t),
            LexemeModel::Sym(c) => band_math::valued_at(v, values, i) == TokModel::Sym(c),
            LexemeModel::Comparison(op) => band_math::valued_at(v, values, i)
                == TokModel::Comparison(op),
        },
{
}

// Spellings.

/// A comparison that is written out is read as that comparison.
pub proof fn comparisons_read_back(op: BinOp)
    requires
        band_math::is_comparison(op),
    ensures
        band_math::lexemes(band_math::spelling(op), 0) == Ok::<
            Seq<LexemeModel>,
            band_math::LexFault,
        >(seq![LexemeModel::Comparison(op)]),
{
    reveal_strlit("<=");
    reveal_strlit(">=");
    reveal_strlit("==");
    reveal_strlit("!=");
    reveal_strlit("<");
    reveal_strlit(">");
    let s = band_math::spelling(op);
    let none = Seq::<LexemeModel>::empty();
    assert(band_math::lexemes(s, s.len() as int) == Ok::<Seq<LexemeModel>, band_math::LexFault>(
        none,
    ));
    assert(band_math::lexemes(s, 2) == Ok::<Seq<LexemeModel>, band_math::LexFault>(none));
    assert(s.len() == 1 ==> band_math::lexemes(s, 1) == Ok::<
        Seq<LexemeModel>,
        band_math::LexFault,
    >(none));
    assert(band_math::lexemes(s, 0) == Ok::<Seq<LexemeModel>, band_math::LexFault>(
        seq![LexemeModel::Comparison(op)] + none,
    ));
    assert(seq![LexemeModel::Comparison(op)] + none =~= seq![LexemeModel::Comparison(op)]);
}

} // verus!
