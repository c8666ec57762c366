use rpn_calc::app::{from_given_args, Mode};
use rpn_calc::calc::{Expr, ExprParseError, Literal, Op};

fn value(e: &Expr) -> f64 {
    match e {
        Expr::Num(l) => l.text().parse::<f64>().unwrap(),
        Expr::Bin(a, op, b) => {
            let (x, y) = (value(a), value(b));
            match op {
                Op::Add => x + y,
                Op::Sub => x - y,
                Op::Mul => x * y,
                Op::Div => x / y,
            }
        }
    }
}

fn parsed(s: &str) -> Expr {
    match Expr::parse(s) {
        Ok(e) => e,
        Err(err) => panic!("{}", err.message()),
    }
}

fn failure(s: &str) -> ExprParseError {
    match Expr::parse(s) {
        Ok(e) => panic!("parsed {}", e.infix_string()),
        Err(err) => err,
    }
}

#[test]
fn parse_sum() {
    let e = parsed("3 4 +");
    assert_eq!(value(&e), 7.0);
    assert_eq!(e.infix_string(), "(3 + 4)");
}

#[test]
fn parse_keeps_operand_order() {
    let e = parsed("10 2 -");
    assert_eq!(value(&e), 8.0);
    assert_eq!(e.infix_string(), "(10 - 2)");
    match &e {
        Expr::Bin(l, Op::Sub, r) => {
            assert!(matches!(&**l, Expr::Num(n) if n.text() == "10"));
            assert!(matches!(&**r, Expr::Num(n) if n.text() == "2"));
        }
        _ => panic!("not a subtraction"),
    }
}

#[test]
fn parse_division_by_zero() {
    let e = parsed("5 0 /");
    assert_eq!(e.infix_string(), "(5 / 0)");
    assert!(value(&e).is_infinite());
    assert!(value(&e) > 0.0);
}

#[test]
fn parse_empty_line() {
    let err = failure("");
    assert_eq!(err.remaining(), 0);
    assert_eq!(err.source(), "");
    assert_eq!(failure(" \t ").remaining(), 0);
}

#[test]
fn parse_two_numbers() {
    let err = failure("1 2");
    assert_eq!(err.remaining(), 2);
    assert_eq!(err.source(), "1 2");
}

#[test]
fn parse_lone_operator() {
    assert_eq!(failure("+").remaining(), 0);
    assert_eq!(failure("1 +").remaining(), 1);
}

#[test]
fn parse_unknown_token() {
    let err = failure("1 foo +");
    assert_eq!(err.remaining(), 1);
    assert_eq!(err.source(), "1 foo +");
}

#[test]
fn parse_nested() {
    let e = parsed("  1 2 +\t3 *  ");
    assert_eq!(e.infix_string(), "((1 + 2) * 3)");
    assert_eq!(value(&e), 9.0);
    let f = parsed("1 2 3 * -");
    assert_eq!(f.infix_string(), "(1 - (2 * 3))");
    assert_eq!(value(&f), -5.0);
}

#[test]
fn parse_single_number() {
    let e = parsed("-2.5e1");
    assert_eq!(e.infix_string(), "-2.5e1");
    assert_eq!(value(&e), -25.0);
}

#[test]
fn repeated_evaluation_agrees() {
    let e = parsed("7 2 / 3 *");
    let first = value(&e);
    assert_eq!(first, 10.5);
    assert_eq!(value(&e), first);
    assert_eq!(e.infix_string(), e.infix_string());
}

#[test]
fn error_message() {
    assert_eq!(
        failure("1 2").message(),
        "Parsing failed for expression '1 2': 2 token(s) left on the stack."
    );
    assert_eq!(
        failure("1 2 3 4 5 6 7 8 9 10 11 12").message(),
        "Parsing failed for expression '1 2 3 4 5 6 7 8 9 10 11 12': 12 token(s) left on the stack."
    );
}

#[test]
fn literal_grammar_agrees_with_std() {
    let cases = [
        "0", "42", "1.", ".5", "1.5", "1e5", "1E5", "1e+5", "-2.5E-3", "+7", "inf", "-inf",
        "+Infinity", "INF", "NaN", "nan", ".", "e5", "1e", "1e+", "--1", "+-1", "1.2.3", "foo",
        "1..2", "..", ".e1", "1.e1", "infinit", "infinityy", "1 2", "+", "-", "*", "/", "",
        "0x10", "1_000", "١",
    ];
    for c in cases {
        assert_eq!(Literal::parse(c).is_some(), c.parse::<f64>().is_ok(), "token {:?}", c);
    }
}

#[test]
fn literal_keeps_text() {
    assert_eq!(Literal::parse("3.50").unwrap().text(), "3.50");
}

#[test]
fn operators() {
    assert_eq!(Op::parse("+"), Some(Op::Add));
    assert_eq!(Op::parse("-"), Some(Op::Sub));
    assert_eq!(Op::parse("*"), Some(Op::Mul));
    assert_eq!(Op::parse("/"), Some(Op::Div));
    assert_eq!(Op::parse("%"), None);
    assert_eq!(Op::parse("++"), None);
    assert_eq!(Op::Mul.to_string(), "*");
    assert_eq!(Op::Div.to_string(), "/");
}

fn args(v: &[&str]) -> Vec<String> {
    v.iter().map(|s| s.to_string()).collect()
}

#[test]
fn app_name_and_modes() {
    let app = from_given_args(args(&["calc"]));
    assert_eq!(app.name(), "calc");
    assert_eq!(app.mode(), Mode::Calculator);
    assert_eq!(from_given_args(args(&["calc", "-v"])).mode(), Mode::Version);
    assert_eq!(from_given_args(args(&["calc", "--version"])).mode(), Mode::Version);
    assert_eq!(from_given_args(args(&["calc", "-h"])).mode(), Mode::Help);
    assert_eq!(from_given_args(args(&["calc", "--help"])).mode(), Mode::Help);
    assert_eq!(from_given_args(args(&["calc", "-x"])).mode(), Mode::UnknownArgument);
    assert_eq!(from_given_args(args(&["calc", "-h", "-v"])).mode(), Mode::UnknownArgument);
    assert_eq!(from_given_args(args(&["calc", "-h", "-v"])).args().len(), 3);
}

#[test]
fn split_agrees_with_std() {
    let lines = ["", "   ", "a", " a  bb\tc\n", "3\u{3000}4\u{a0}+", "x\u{2009}y\u{85}z ", "é ü"];
    for l in lines {
        let ours = rpn_calc::text::split_words(l);
        let expected: Vec<String> = l.split_whitespace().map(|w| w.to_string()).collect();
        assert_eq!(ours, expected, "line {:?}", l);
    }
    assert_eq!(parsed("3\u{3000}4\u{a0}+").infix_string(), "(3 + 4)");
}
