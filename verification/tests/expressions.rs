use geoplumb::band_math::{
    comparison_text, lex, lex_message, number_texts, starts_with, valued, BinOp, Func, LexFault,
    Tok,
};
use geoplumb::formula::{fault_message, Arith, BandMath, Expr, ParseFault};
use geoplumb::number::Real;

fn num(v: f64) -> Real {
    Real::from_bits(v.to_bits())
}

fn double(v: Real) -> f64 {
    f64::from_bits(v.to_bits())
}

fn arith(op: Arith, a: Real, b: Real) -> Real {
    let (x, y) = (double(a), double(b));
    num(match op {
        Arith::Plus => x + y,
        Arith::Minus => x - y,
        Arith::Times => x * y,
        Arith::Over => x / y,
        Arith::Sqrt => x.sqrt(),
        Arith::Pow => x.powf(y),
        Arith::Log => x.ln(),
        Arith::Exp => x.exp(),
    })
}

fn tokens(src: &str) -> Result<Vec<Tok>, String> {
    let lexemes = lex(src).map_err(|f| lex_message(src, f))?;
    let values: Vec<Real> = number_texts(&lexemes)
        .iter()
        .map(|t| num(t.parse::<f64>().unwrap()))
        .collect();
    Ok(valued(lexemes, &values))
}

fn build(src: &str) -> Result<BandMath, String> {
    let toks = tokens(src)?;
    BandMath::new(&toks).map_err(|f| {
        let place = match f {
            ParseFault::Expected(_, p) | ParseFault::ExpectedValue(p) | ParseFault::Trailing(p) => {
                toks.get(p)
            }
            _ => None,
        };
        let shown = match place {
            Some(Tok::Num(v)) => format!("{}", double(*v)),
            _ => String::new(),
        };
        fault_message(&toks, f, &shown)
    })
}

fn at(src: &str, bands: &[f64]) -> f64 {
    let math = build(src).unwrap();
    let planes: Vec<Vec<Real>> = bands.iter().map(|b| vec![num(*b)]).collect();
    double(math.compute(&planes, 1, &arith)[0])
}

#[test]
fn expressions_compute() {
    assert_eq!(at("(b1 - b0) / (b1 + b0)", &[1.0, 3.0]), 0.5);
    assert_eq!(at("1 + 2 * 3", &[]), 7.0);
    assert_eq!(at("8 / 4 / 2", &[]), 1.0);
    assert_eq!(at("7 - 4 - 2", &[]), 1.0);
    assert_eq!(at("-b0 * 2", &[3.0]), -6.0);
    assert_eq!(at("--2", &[]), 2.0);
    assert_eq!(at("sqrt(16) + abs(-2)", &[]), 6.0);
    assert_eq!(at("min(b0, b1) + max(b0, b1) * 10", &[1.0, 2.0]), 21.0);
    assert_eq!(at("pow(2, 10)", &[]), 1024.0);
    assert_eq!(at("log(exp(1))", &[]), 1.0);
    assert_eq!(at(".5 + 1.", &[]), 1.5);
}

#[test]
fn comparisons_bind_loosest_and_yield_one_or_zero() {
    assert_eq!(at("b0 + 1 < b1", &[1.0, 3.0]), 1.0);
    assert_eq!(at("b0 + 1 < b1", &[2.0, 3.0]), 0.0);
    assert_eq!(at("2 <= 2", &[]), 1.0);
    assert_eq!(at("2 >= 3", &[]), 0.0);
    assert_eq!(at("2 == 2", &[]), 1.0);
    assert_eq!(at("2 != 2", &[]), 0.0);
    assert_eq!(at("3 > 2 > 0", &[]), 1.0);
    assert_eq!(at("where(b0 > 0, b0, 7)", &[-1.0]), 7.0);
    assert_eq!(at("where(2, 5, 7)", &[]), 5.0);
    assert_eq!(at("where(-0, 5, 7)", &[]), 7.0);
}

#[test]
fn nodata_passes_through_every_operator() {
    for src in [
        "b0 + 1", "-b0", "b0 == b0", "b0 != b0", "min(b0, 1)", "pow(b0, 0)", "where(1, 2, b0)",
        "where(b0, 1, 2)",
    ] {
        assert!(at(src, &[f64::NAN]).is_nan(), "{src}");
    }
}

#[test]
fn an_expression_knows_the_bands_it_needs() {
    assert_eq!(build("b0 + b3 * 2").unwrap().bands(), 4);
    assert_eq!(build("1").unwrap().bands(), 0);
    assert_eq!(build("b007").unwrap().bands(), 8);
    assert_eq!(build("b65534").unwrap().bands(), 65535);
    assert_eq!(build("b70000").unwrap().bands(), 65535);
}

#[test]
fn faults_name_what_is_wrong() {
    let cases = [
        ("1.2.3", "band math: bad number 1.2.3"),
        (".", "band math: bad number ."),
        ("b0 $ 1", "band math: unexpected character '$'"),
        ("a = 1", "band math: unexpected character '='"),
        ("", "band math: expression ends where a value is due"),
        ("1 +", "band math: expression ends where a value is due"),
        ("* 2", "band math: expected a value, got '*'"),
        ("(1", "band math: expected ')', expression ends"),
        ("(1 2)", "band math: expected ')', got 2"),
        ("1 2.50", "band math: trailing 2.5"),
        ("1 )", "band math: trailing ')'"),
        ("sqrt 4", "band math: expected '(', got 4"),
        ("sqrt(1, 2)", "band math: sqrt takes 1 arguments, got 2"),
        ("where(1, 2)", "band math: where takes 3 arguments, got 2"),
        ("sin(1)", "band math: unknown function sin"),
        ("ndvi", "band math: unknown name ndvi"),
        ("b", "band math: unknown name b"),
        ("< 1", "band math: expected a value, got '<'"),
        ("(1 <= ) 2", "band math: expected a value, got ')'"),
    ];
    for (src, want) in cases {
        assert_eq!(build(src).err().as_deref(), Some(want), "{src}");
    }
    assert_eq!(lex("ab$").unwrap_err(), LexFault::Unexpected(2));
}

#[test]
fn spaces_of_every_kind_are_skipped() {
    assert_eq!(at("1\u{a0}+\u{2003}1\t", &[]), 2.0);
    assert!(build("1\u{200b}").is_err());
}

#[test]
fn names_and_spellings_are_looked_up() {
    assert_eq!(Func::lookup("where"), Some((Func::Where, 3)));
    assert_eq!(Func::lookup("Where"), None);
    assert_eq!(comparison_text(BinOp::NotEqual), "!=");
    let chars: Vec<char> = "a<=b".chars().collect();
    assert!(starts_with(&chars, 1, "<="));
    assert!(!starts_with(&chars, 3, "b<"));
    assert!(starts_with(&chars, 4, ""));
}

#[test]
fn a_written_expression_reads_back() {
    let root = build("where((b0 < 1), (-b1), pow(b2, 3))").unwrap().root;
    let again = build("where(b0 < 1, -b1, pow(b2, 3))").unwrap().root;
    assert_eq!(format!("{root:?}"), format!("{again:?}"));
    assert!(matches!(root, Expr::Call(Func::Where, _)));
}
