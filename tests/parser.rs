use toyjq::{chr, failure, or_from, rule, string, unit, until, Cont, Parser, Value};

#[derive(Debug, PartialEq, Eq)]
enum Expr {
    Num(i32),
    Add(Box<(Expr, Expr)>),
}

const NUMBER: u64 = 1;
const SUM: u64 = 2;
const EXPR: usize = 0;

fn digits(ds: &str) -> Vec<Parser> {
    ds.chars().map(chr).collect()
}

fn parse_digit() -> Parser {
    chr('0').map_(Value::Char('0')).try_().or(
        chr('-')
            .or_not()
            .and(or_from(digits("123456789")))
            .and(or_from(digits("0123456789")).many())
            .map(NUMBER),
    )
}

fn to_i32(v: &Value) -> i32 {
    match v {
        Value::Char('0') => 0,
        Value::Tag(NUMBER, inner) => match &**inner {
            Value::Pair(sign_head, tail) => match (&**sign_head, &**tail) {
                (Value::Pair(sign, head), Value::List(rest)) => {
                    let mut st = String::new();
                    if let Value::Opt(Some(_)) = &**sign {
                        st.push('-');
                    }
                    if let Value::Char(c) = &**head {
                        st.push(*c);
                    }
                    for c in rest {
                        if let Value::Char(c) = c {
                            st.push(*c);
                        }
                    }
                    i32::from_str_radix(st.as_str(), 10).unwrap()
                }
                _ => panic!("unexpected value"),
            },
            _ => panic!("unexpected value"),
        },
        _ => panic!("unexpected value"),
    }
}

fn to_expr(v: &Value) -> Expr {
    match v {
        Value::Tag(SUM, inner) => match &**inner {
            Value::Pair(l, r) => Expr::Add(Box::new((to_expr(l), to_expr(r)))),
            _ => panic!("unexpected value"),
        },
        _ => Expr::Num(to_i32(v)),
    }
}

fn parse_add() -> Parser {
    chr('(')
        .with_spaces()
        .then_(rule(EXPR).and(chr('+').with_spaces().then_(rule(EXPR))).map(SUM))
        .skip(chr(')'))
}

fn expr_rules() -> Vec<Parser> {
    vec![parse_add().try_().or(parse_digit())]
}

fn digit(s: &str) -> i32 {
    to_i32(&parse_digit().parse(s).unwrap())
}

fn num(s: &str) -> Expr {
    Expr::Num(to_i32(&parse_digit().parse(s).unwrap()))
}

fn expr(s: &str) -> Expr {
    to_expr(&rule(EXPR).parse_with(&expr_rules(), s).unwrap())
}

#[test]
fn combinator_test_parser() {
    assert_eq!(digit("0"), 0);
    assert_eq!(digit("1"), 1);
    assert_eq!(digit("123"), 123);
    assert_eq!(digit("-999123"), -999123);

    assert_eq!(num("-987654321"), Expr::Num(-987654321));

    assert_eq!(expr("-987654321"), Expr::Num(-987654321));
    assert_eq!(expr("(1 + 2)"), Expr::Add(Box::new((Expr::Num(1), Expr::Num(2)))));
    assert_eq!(
        expr("((1 + 2) + ((3 + 4) + 5))"),
        Expr::Add(Box::new((
            Expr::Add(Box::new((Expr::Num(1), Expr::Num(2)))),
            Expr::Add(Box::new((Expr::Add(Box::new((Expr::Num(3), Expr::Num(4)))), Expr::Num(5))))
        )))
    );
}

#[test]
fn parsercombinator_test_parser() {
    assert_eq!(digit("0"), 0);
    assert_eq!(digit("1"), 1);
    assert_eq!(digit("123"), 123);
    assert_eq!(digit("-999123"), -999123);

    assert_eq!(num("-987654321"), Expr::Num(-987654321));

    assert_eq!(expr("-987654321"), Expr::Num(-987654321));
    assert_eq!(expr("(1 + 2)"), Expr::Add(Box::new((Expr::Num(1), Expr::Num(2)))));
    assert_eq!(
        expr("((1 + 2) + ((3 + 4) + 5))"),
        Expr::Add(Box::new((
            Expr::Add(Box::new((Expr::Num(1), Expr::Num(2)))),
            Expr::Add(Box::new((Expr::Add(Box::new((Expr::Num(3), Expr::Num(4)))), Expr::Num(5))))
        )))
    );
}

fn text_of(v: &Value) -> String {
    match v {
        Value::Text(s) => s.clone(),
        _ => panic!("not a text"),
    }
}

#[test]
fn unit_yields_its_value() {
    let v = unit(Value::Char('x')).parse("").unwrap();
    assert!(matches!(v, Value::Char('x')));
}

#[test]
fn string_matches_prefix() {
    assert_eq!(text_of(&string("foo").parse("fooo").unwrap()), "foo");
    let e = string("foo").parse("fox").unwrap_err();
    assert!(e.retry);
    assert_eq!(e.pos, 0);
    assert_eq!(e.message, "Expected `foo` but actual is `fox`.");
    let e = string("foo").parse("").unwrap_err();
    assert_eq!(e.message, "Reaches end.");
    let e = string("foo").parse("fo").unwrap_err();
    assert_eq!(e.message, "Expected `foo` but actual is `fo`.");
}

#[test]
fn chr_matches_one_character() {
    assert!(matches!(chr('f').parse("foo").unwrap(), Value::Char('f')));
    let e = chr('f').parse("goo").unwrap_err();
    assert_eq!(e.message, "Expected `f` but actual is `g`.");
    assert!(e.retry);
}

#[test]
fn failure_reports_its_message() {
    let e = failure("failed".to_string()).parse("").unwrap_err();
    assert_eq!(e.message, "failed");
    assert!(e.retry);
    assert_eq!(e.pos, 0);
}

#[test]
fn until_stops_before_delimiter() {
    assert_eq!(text_of(&until("!").parse("foo bar!").unwrap()), "foo bar");
    let e = until("!").parse("foo bar").unwrap_err();
    assert_eq!(e.message, "Reaches end.");
    assert_eq!(e.pos, 0);
}

#[test]
fn or_from_tries_each() {
    assert!(matches!(or_from(digits("abcdef")).parse("fff").unwrap(), Value::Char('f')));
}

#[test]
fn then_keeps_second_and_skip_keeps_first() {
    assert_eq!(text_of(&chr('[').then_(string("foo")).parse("[foo]").unwrap()), "foo");
    assert_eq!(text_of(&string("foo").skip(chr(';')).parse("foo;").unwrap()), "foo");
    let v = chr('[').and(string("foo")).parse("[foo]").unwrap();
    match v {
        Value::Pair(a, b) => {
            assert!(matches!(*a, Value::Char('[')));
            assert_eq!(text_of(&b), "foo");
        }
        _ => panic!("not a pair"),
    }
}

#[test]
fn or_backtracks_only_on_retry() {
    assert_eq!(text_of(&string("foo").try_().or(string("bar")).parse("bar").unwrap()), "bar");
    // `chr('a')` consumes, so the failure of `chr('b')` is committed.
    let p = chr('a').then_(chr('b')).or(string("ac"));
    let e = p.parse("ac").unwrap_err();
    assert!(!e.retry);
    assert_eq!(e.pos, 1);
    // With `try_` the whole sequence may backtrack.
    let p = chr('a').then_(chr('b')).try_().or(string("ac"));
    assert_eq!(text_of(&p.parse("ac").unwrap()), "ac");
}

#[test]
fn sequence_without_consumption_keeps_retry_flag() {
    let p = chr('x').or_not().then_(chr('a').then_(chr('b')));
    let e = p.parse("ac").unwrap_err();
    assert!(!e.retry);
    let p = chr('x').or_not().then_(chr('b'));
    let e = p.parse("ac").unwrap_err();
    assert!(e.retry);
}

#[test]
fn or_not_is_optional() {
    let p = chr('-').or_not().and(string("123"));
    match p.parse("-123").unwrap() {
        Value::Pair(a, _) => assert!(matches!(*a, Value::Opt(Some(_)))),
        _ => panic!("not a pair"),
    }
    match p.parse("123").unwrap() {
        Value::Pair(a, _) => assert!(matches!(*a, Value::Opt(None))),
        _ => panic!("not a pair"),
    }
}

#[test]
fn many_collects_repetitions() {
    match string("foo").many().parse("foofoofoo").unwrap() {
        Value::List(vs) => {
            assert_eq!(vs.len(), 3);
            for v in vs.iter() {
                assert_eq!(text_of(v), "foo");
            }
        }
        _ => panic!("not a list"),
    }
    let e = chr('a').then_(chr('b')).many().parse("ababac").unwrap_err();
    assert!(!e.retry);
    assert_eq!(e.pos, 5);
}

#[test]
fn sep_by_collects_and_rejects_trailing_delimiter() {
    match string("foo").sep_by(string(", ")).parse("foo, foo, foo").unwrap() {
        Value::List(vs) => assert_eq!(vs.len(), 3),
        _ => panic!("not a list"),
    }
    match string("foo").sep_by(string(", ")).parse("bar").unwrap() {
        Value::List(vs) => assert_eq!(vs.len(), 0),
        _ => panic!("not a list"),
    }
    let e = string("foo").sep_by(string(", ")).parse("foo, ").unwrap_err();
    assert_eq!(e.pos, 5);
    assert_eq!(e.message, "Reaches end.");
}

#[test]
fn try_reports_start_position() {
    let e = chr('a').then_(chr('b')).try_().parse("ac").unwrap_err();
    assert!(e.retry);
    assert_eq!(e.pos, 0);
}

#[test]
fn with_spaces_skips_spaces() {
    assert!(matches!(chr(',').with_spaces().parse("  ,  ").unwrap(), Value::Char(',')));
}

#[test]
fn flat_map_checks_numbers() {
    let p = or_from(digits("-0123456789.Ee+")).many().try_().flat_map(Cont::Number);
    assert!(p.parse("3.0E4").is_ok());
    let e = p.parse("1-").unwrap_err();
    assert!(!e.retry);
    assert_eq!(e.pos, 2);
    assert_eq!(e.message, "Unable to parse a number: 1-");
    let e = p.parse("x").unwrap_err();
    assert!(e.retry);
    assert_eq!(e.pos, 0);
}

#[test]
fn unknown_rule_and_runaway_recursion_fail() {
    let e = rule(3).parse("abc").unwrap_err();
    assert_eq!(e.message, "Unknown rule.");
    let rules = vec![rule(0)];
    let e = rule(0).parse_with(&rules, "abc").unwrap_err();
    assert_eq!(e.message, "Recursion limit reached.");
    assert!(!e.retry);
}

#[test]
fn same_parser_same_result() {
    let p = string("ab").many();
    let a = p.parse("ababx").unwrap();
    let b = p.parse("ababx").unwrap();
    match (a, b) {
        (Value::List(x), Value::List(y)) => assert_eq!(x.len(), y.len()),
        _ => panic!("not lists"),
    }
}
