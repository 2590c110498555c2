use vstd::prelude::*;
use vstd::string::*;

use crate::stream::{
    ahead, expected_message, msg_expected, msg_reaches_end, push_char, reaches_end_message,
    Failure, ParseError, StrStream,
};
use crate::value::{lemma_trees_of_push, trees_of, Tree, Value};

verus! {

broadcast use {
    vstd::seq::group_seq_axioms,
    vstd::seq_lib::group_seq_properties,
    vstd::std_specs::vec::group_vec_axioms,
};

/// What a parser built by `flat_map` runs after its receiver, chosen by the
/// receiver's value.
#[derive(Debug, PartialEq, Eq)]
pub enum Cont {
    /// Keeps the value when its characters form a decimal floating-point
    /// literal, and fails otherwise.
    Number,
}

/// A parser, as a tree of primitives and combinators. Running it is a pure
/// function of the cursor it starts from.
#[derive(Debug, PartialEq, Eq)]
pub enum Parser {
    /// Succeeds with the value, consuming nothing.
    Unit(Value),
    /// Matches the text exactly.
    Str(&'static str),
    /// Matches the character.
    Chr(char),
    /// Fails with the message, consuming nothing.
    Failure(String),
    /// Consumes everything before the first occurrence of the text.
    Until(&'static str),
    /// Marks the value with a number.
    Tagged(Box<Parser>, u64),
    /// Replaces the value.
    MapTo(Box<Parser>, Value),
    /// Runs the continuation on the value.
    FlatMap(Box<Parser>, Cont),
    /// Runs both in sequence and keeps the second value.
    Then(Box<Parser>, Box<Parser>),
    /// Runs both in sequence and keeps the first value.
    Skip(Box<Parser>, Box<Parser>),
    /// Runs both in sequence and keeps both values.
    And(Box<Parser>, Box<Parser>),
    /// Runs the second from the same place when the first fails retryably.
    Or(Box<Parser>, Box<Parser>),
    /// Makes the parser optional.
    OrNot(Box<Parser>),
    /// Makes every failure retryable, reported where the parser started.
    Try(Box<Parser>),
    /// Repeats the parser zero or more times.
    Many(Box<Parser>),
    /// Parses elements separated by a delimiter, zero or more.
    SepBy(Box<Parser>, Box<Parser>),
    /// Runs the rule of this index in the rule table; rules may refer to each
    /// other and to themselves.
    Rule(usize),
}

/// What running a parser gives: the offset reached and the value, or a
/// failure.
pub type Outcome = Result<(int, Tree), Failure>;

pub open spec fn fail(retry: bool, message: Seq<char>, pos: int) -> Failure {
    Failure { retry, message, pos }
}

/// The commitment rule for sequencing: a failure of the second part keeps its
/// own retry flag when the first part consumed nothing (it started at `start`
/// and ended at `mid`), and cannot be retried otherwise.
pub open spec fn committed(e: Failure, start: int, mid: int) -> Failure {
    Failure { retry: if mid == start { e.retry } else { false }, message: e.message, pos: e.pos }
}

pub open spec fn msg_number(t: Seq<char>) -> Seq<char> {
    "Unable to parse a number: "@ + t
}

pub open spec fn msg_too_deep() -> Seq<char> {
    "Recursion limit reached."@
}

pub open spec fn msg_unknown_rule() -> Seq<char> {
    "Unknown rule."@
}

/// The first offset at or after `j` where `t` occurs in `s`, before its end.
pub open spec fn scan_until(t: Seq<char>, s: Seq<char>, j: int) -> Option<int>
    decreases s.len() - j,
{
    if 0 <= j < s.len() {
        if ahead(s, j, t.len() as int) == t {
            Some(j)
        } else {
            scan_until(t, s, j + 1)
        }
    } else {
        None
    }
}

/// The characters a value holds: those of a character, a text, or a list of
/// such, in order; none for other values.
pub open spec fn tree_text(v: Tree) -> Seq<char>
    decreases v,
{
    match v {
        Tree::Char(c) => seq![c],
        Tree::Text(t) => t,
        Tree::List(ts) => trees_text(ts),
        _ => seq![],
    }
}

pub open spec fn trees_text(ts: Seq<Tree>) -> Seq<char>
    decreases ts,
{
    if ts.len() == 0 {
        seq![]
    } else {
        trees_text(ts.drop_last()) + tree_text(ts.last())
    }
}

/// One step of the recogniser for decimal floating-point literals: an
/// optional sign, digits with at most one point and at least one digit, and
/// an optional exponent (`e` or `E`, an optional sign, one or more digits).
/// States: 0 start, 1 sign, 2 integer digits, 3 point without digits yet,
/// 4 fraction, 5 exponent mark, 6 exponent sign, 7 exponent digits; -1 reject.
pub open spec fn number_step(state: int, c: char) -> int {
    let digit = '0' <= c && c <= '9';
    let sign = c == '+' || c == '-';
    let point = c == '.';
    let exp = c == 'e' || c == 'E';
    if state == 0 {
        if sign { 1 } else if digit { 2 } else if point { 3 } else { -1 }
    } else if state == 1 {
        if digit { 2 } else if point { 3 } else { -1 }
    } else if state == 2 {
        if digit { 2 } else if point { 4 } else if exp { 5 } else { -1 }
    } else if state == 3 {
        if digit { 4 } else { -1 }
    } else if state == 4 {
        if digit { 4 } else if exp { 5 } else { -1 }
    } else if state == 5 {
        if sign { 6 } else if digit { 7 } else { -1 }
    } else if state == 6 || state == 7 {
        if digit { 7 } else { -1 }
    } else {
        -1
    }
}

pub open spec fn number_state(t: Seq<char>) -> int
    decreases t.len(),
{
    if t.len() == 0 {
        0
    } else {
        number_step(number_state(t.drop_last()), t.last())
    }
}

/// `t` is a decimal floating-point literal.
pub open spec fn is_number_literal(t: Seq<char>) -> bool {
    let st = number_state(t);
    st == 2 || st == 4 || st == 7
}

pub open spec fn cont_outcome(k: Cont, v: Tree, pos: int) -> Outcome {
    match k {
        Cont::Number => if is_number_literal(tree_text(v)) {
            Ok((pos, v))
        } else {
            Err(fail(true, msg_number(tree_text(v)), pos))
        },
    }
}

/// `acc` followed by the items of a successful repetition.
pub open spec fn prepend(acc: Seq<Tree>, r: Result<(int, Seq<Tree>), Failure>) -> Result<
    (int, Seq<Tree>),
    Failure,
> {
    match r {
        Ok((p, vs)) => Ok((p, acc + vs)),
        Err(e) => Err(e),
    }
}

/// What running `p` on `s` from `pos` gives, with `rules` as the rule table
/// and at most `fuel` rules entered one inside another.
pub open spec fn outcome(p: Parser, rules: Seq<Parser>, s: Seq<char>, pos: int, fuel: nat) -> Outcome
    decreases fuel, p, s.len() - pos + 1,
{
    if !(0 <= pos <= s.len()) {
        Err(fail(false, msg_reaches_end(), pos))
    } else {
        match p {
            Parser::Unit(v) => Ok((pos, v@)),
            Parser::Str(t) => if pos < s.len() {
                if ahead(s, pos, t@.len() as int) == t@ {
                    Ok((pos + t@.len(), Tree::Text(t@)))
                } else {
                    Err(fail(true, msg_expected(t@, ahead(s, pos, t@.len() as int)), pos))
                }
            } else {
                Err(fail(true, msg_reaches_end(), pos))
            },
            Parser::Chr(c) => if pos < s.len() {
                if s[pos] == c {
                    Ok((pos + 1, Tree::Char(c)))
                } else {
                    Err(fail(true, msg_expected(seq![c], seq![s[pos]]), pos))
                }
            } else {
                Err(fail(true, msg_reaches_end(), pos))
            },
            Parser::Failure(m) => Err(fail(true, m@, pos)),
            Parser::Until(t) => match scan_until(t@, s, pos) {
                Some(j) => Ok((j, Tree::Text(s.subrange(pos, j)))),
                None => Err(fail(true, msg_reaches_end(), pos)),
            },
            Parser::Tagged(q, tag) => match outcome(*q, rules, s, pos, fuel) {
                Ok((pos2, v)) => Ok((pos2, Tree::Tag(tag, Box::new(v)))),
                Err(e) => Err(e),
            },
            Parser::MapTo(q, x) => match outcome(*q, rules, s, pos, fuel) {
                Ok((pos2, _)) => Ok((pos2, x@)),
                Err(e) => Err(e),
            },
            Parser::FlatMap(q, k) => match outcome(*q, rules, s, pos, fuel) {
                Ok((pos2, v)) => match cont_outcome(k, v, pos2) {
                    Ok(r) => Ok(r),
                    Err(e) => Err(committed(e, pos, pos2)),
                },
                Err(e) => Err(e),
            },
            Parser::Then(a, b) => match outcome(*a, rules, s, pos, fuel) {
                Ok((pos2, _)) => match outcome(*b, rules, s, pos2, fuel) {
                    Ok(r) => Ok(r),
                    Err(e) => Err(committed(e, pos, pos2)),
                },
                Err(e) => Err(e),
            },
            Parser::Skip(a, b) => match outcome(*a, rules, s, pos, fuel) {
                Ok((pos2, v)) => match outcome(*b, rules, s, pos2, fuel) {
                    Ok((pos3, _)) => Ok((pos3, v)),
                    Err(e) => Err(committed(e, pos, pos2)),
                },
                Err(e) => Err(e),
            },
            Parser::And(a, b) => match outcome(*a, rules, s, pos, fuel) {
                Ok((pos2, v)) => match outcome(*b, rules, s, pos2, fuel) {
                    Ok((pos3, w)) => Ok((pos3, Tree::Pair(Box::new(v), Box::new(w)))),
                    Err(e) => Err(committed(e, pos, pos2)),
                },
                Err(e) => Err(e),
            },
            Parser::Or(a, b) => match outcome(*a, rules, s, pos, fuel) {
                Ok(r) => Ok(r),
                Err(e) => if e.retry {
                    outcome(*b, rules, s, pos, fuel)
                } else {
                    Err(e)
                },
            },
            Parser::OrNot(a) => match outcome(*a, rules, s, pos, fuel) {
                Ok((pos2, v)) => Ok((pos2, Tree::Opt(Some(Box::new(v))))),
                Err(_) => Ok((pos, Tree::Opt(None))),
            },
            Parser::Try(a) => match outcome(*a, rules, s, pos, fuel) {
                Ok(r) => Ok(r),
                Err(e) => Err(fail(true, e.message, pos)),
            },
            Parser::Many(_) => match many_outcome(p, rules, s, pos, fuel) {
                Ok((pos2, vs)) => Ok((pos2, Tree::List(vs))),
                Err(e) => Err(e),
            },
            Parser::SepBy(a, _) => match outcome(*a, rules, s, pos, fuel) {
                Ok((pos2, v)) => if pos <= pos2 <= s.len() {
                    match prepend(seq![v], sep_outcome(p, rules, s, pos2, fuel)) {
                        Ok((pos3, vs)) => Ok((pos3, Tree::List(vs))),
                        Err(e) => Err(e),
                    }
                } else {
                    Ok((pos2, Tree::List(seq![v])))
                },
                Err(e) => if e.retry {
                    Ok((pos, Tree::List(seq![])))
                } else {
                    Err(e)
                },
            },
            Parser::Rule(i) => if i >= rules.len() {
                Err(fail(false, msg_unknown_rule(), pos))
            } else if fuel == 0 {
                Err(fail(false, msg_too_deep(), pos))
            } else {
                outcome(rules[i as int], rules, s, pos, (fuel - 1) as nat)
            },
        }
    }
}

/// The items of a repetition `p` (a `Many`) from `pos`: it ends at the first
/// retryable failure, fails on one that cannot be retried, and ends after an
/// item that consumed nothing.
pub open spec fn many_outcome(p: Parser, rules: Seq<Parser>, s: Seq<char>, pos: int, fuel: nat) -> Result<
    (int, Seq<Tree>),
    Failure,
>
    decreases fuel, p, s.len() - pos,
{
    if !(0 <= pos <= s.len()) {
        Ok((pos, seq![]))
    } else {
        match p {
            Parser::Many(q) => match outcome(*q, rules, s, pos, fuel) {
                Ok((pos2, v)) => if pos < pos2 <= s.len() {
                    prepend(seq![v], many_outcome(p, rules, s, pos2, fuel))
                } else {
                    Ok((pos2, seq![v]))
                },
                Err(e) => if e.retry {
                    Ok((pos, seq![]))
                } else {
                    Err(e)
                },
            },
            _ => Ok((pos, seq![])),
        }
    }
}

/// The items after the first of a separated list `p` (a `SepBy`), from
/// `pos`: each is a delimiter and an element. A retryable failure of the
/// delimiter ends the list; any failure of an element after a delimiter is
/// passed on; the list ends after a step that consumed nothing.
pub open spec fn sep_outcome(p: Parser, rules: Seq<Parser>, s: Seq<char>, pos: int, fuel: nat) -> Result<
    (int, Seq<Tree>),
    Failure,
>
    decreases fuel, p, s.len() - pos,
{
    if !(0 <= pos <= s.len()) {
        Ok((pos, seq![]))
    } else {
        match p {
            Parser::SepBy(a, d) => match outcome(*d, rules, s, pos, fuel) {
                Ok((pos2, _)) => match outcome(*a, rules, s, pos2, fuel) {
                    Ok((pos3, v)) => if pos < pos3 <= s.len() {
                        prepend(seq![v], sep_outcome(p, rules, s, pos3, fuel))
                    } else {
                        Ok((pos3, seq![v]))
                    },
                    Err(e) => Err(e),
                },
                Err(e) => if e.retry {
                    Ok((pos, seq![]))
                } else {
                    Err(e)
                },
            },
            _ => Ok((pos, seq![])),
        }
    }
}

/// How a run's result stands to the outcome it should have.
pub open spec fn run_matches<'a>(
    r: Result<(StrStream<'a>, Value), ParseError>,
    input: StrStream<'a>,
    o: Outcome,
) -> bool {
    match r {
        Ok((c, v)) => {
            &&& c.body() == input.body()
            &&& c.wf()
            &&& input.pos() <= c.pos()
            &&& o == Outcome::Ok((c.pos(), v@))
        },
        Err(e) => o == Outcome::Err(e@),
    }
}

fn slice_eq(a: &[char], b: &[char]) -> (r: bool)
    ensures
        r == (a@ == b@),
{
    if a.len() != b.len() {
        return false;
    }
    let mut i: usize = 0;
    while i < a.len()
        invariant
            i <= a.len(),
            a.len() == b.len(),
            a@.take(i as int) == b@.take(i as int),
        decreases a.len() - i,
    {
        if a[i] != b[i] {
            assert(a@[i as int] != b@[i as int]);
            return false;
        }
        assert(a@.take(i + 1) == a@.take(i as int).push(a@[i as int]));
        assert(b@.take(i + 1) == b@.take(i as int).push(b@[i as int]));
        i = i + 1;
    }
    assert(a@.take(a.len() as int) == a@);
    assert(b@.take(b.len() as int) == b@);
    true
}

fn char_message(expected: char, found: char) -> (r: String)
    ensures
        r@ == msg_expected(seq![expected], seq![found]),
{
    let mut m = String::from_str("Expected `");
    push_char(&mut m, expected);
    m.append("` but actual is `");
    push_char(&mut m, found);
    m.append("`.");
    m
}

pub(crate) fn text_of(v: &Value, out: &mut Vec<char>)
    ensures
        final(out)@ == old(out)@ + tree_text(v@),
    decreases v,
{
    match v {
        Value::Char(c) => {
            out.push(*c);
        },
        Value::Text(t) => {
            let cs = crate::stream::chars_of(t.as_str());
            let mut i: usize = 0;
            let ghost start = out@;
            while i < cs.len()
                invariant
                    i <= cs.len(),
                    out@ == start + cs@.take(i as int),
                decreases cs.len() - i,
            {
                out.push(cs[i]);
                i = i + 1;
            }
            assert(cs@.take(cs.len() as int) == cs@);
        },
        Value::List(vs) => {
            let ghost start = out@;
            let mut i: usize = 0;
            while i < vs.len()
                invariant
                    i <= vs.len(),
                    *v == Value::List(*vs),
                    out@ == start + trees_text(trees_of(vs@.take(i as int))),
                decreases vs.len() - i,
            {
                proof {
                    assert(decreases_to!(*v => (*v)->List_0));
                    assert(decreases_to!(*vs => vs[i as int]));
                    assert(vs@.take(i + 1).drop_last() == vs@.take(i as int));
                    assert(trees_of(vs@.take(i + 1)).drop_last() == trees_of(vs@.take(i as int)));
                }
                text_of(&vs[i], out);
                i = i + 1;
            }
            assert(vs@.take(vs.len() as int) == vs@);
        },
        _ => {},
    }
}

fn number_check(t: &Vec<char>) -> (r: bool)
    ensures
        r == is_number_literal(t@),
{
    let mut st: i8 = 0;
    let mut i: usize = 0;
    while i < t.len()
        invariant
            i <= t.len(),
            st as int == number_state(t@.take(i as int)),
            -1 <= st <= 7,
        decreases t.len() - i,
    {
        assert(t@.take(i + 1).drop_last() == t@.take(i as int));
        let c = t[i];
        let digit = '0' <= c && c <= '9';
        let sign = c == '+' || c == '-';
        let point = c == '.';
        let exp = c == 'e' || c == 'E';
        st = if st == 0 {
            if sign { 1 } else if digit { 2 } else if point { 3 } else { -1 }
        } else if st == 1 {
            if digit { 2 } else if point { 3 } else { -1 }
        } else if st == 2 {
            if digit { 2 } else if point { 4 } else if exp { 5 } else { -1 }
        } else if st == 3 {
            if digit { 4 } else { -1 }
        } else if st == 4 {
            if digit { 4 } else if exp { 5 } else { -1 }
        } else if st == 5 {
            if sign { 6 } else if digit { 7 } else { -1 }
        } else if st == 6 || st == 7 {
            if digit { 7 } else { -1 }
        } else {
            -1
        };
        i = i + 1;
    }
    assert(t@.take(t.len() as int) == t@);
    st == 2 || st == 4 || st == 7
}

fn number_message(t: &Vec<char>) -> (r: String)
    ensures
        r@ == msg_number(t@),
{
    let mut m = String::from_str("Unable to parse a number: ");
    m.append(crate::stream::string_of(t.as_slice()).as_str());
    m
}

impl Parser {
    /// Runs the parser from `input`, with `rules` as the rule table and at
    /// most `fuel` rules entered one inside another.
    pub fn run<'a>(&self, rules: &Vec<Parser>, input: StrStream<'a>, fuel: usize) -> (r: Result<
        (StrStream<'a>, Value),
        ParseError,
    >)
        requires
            input.wf(),
        ensures
            run_matches(r, input, outcome(*self, rules@, input.body(), input.pos(), fuel as nat)),
        decreases fuel, self,
    {
        let ghost s = input.body();
        let ghost pos = input.pos();
        match self {
            Parser::Unit(v) => Ok((input, v.copy())),
            Parser::Str(t) => {
                if input.can_advance() {
                    let tc = crate::stream::chars_of(t);
                    let heads = input.take(tc.len());
                    if slice_eq(heads, tc.as_slice()) {
                        Ok((input.advance(tc.len()), Value::Text(String::from_str(t))))
                    } else {
                        Err(ParseError {
                            retry: true,
                            message: expected_message(tc.as_slice(), heads),
                            pos: input.position(),
                        })
                    }
                } else {
                    Err(ParseError { retry: true, message: reaches_end_message(), pos: input.position() })
                }
            },
            Parser::Chr(c) => {
                if input.can_advance() {
                    let head = input.peek();
                    if head == *c {
                        Ok((input.advance(1), Value::Char(*c)))
                    } else {
                        Err(ParseError {
                            retry: true,
                            message: char_message(*c, head),
                            pos: input.position(),
                        })
                    }
                } else {
                    Err(ParseError { retry: true, message: reaches_end_message(), pos: input.position() })
                }
            },
            Parser::Failure(m) => Err(ParseError { retry: true, message: m.clone(), pos: input.position() }),
            Parser::Until(t) => {
                let tc = crate::stream::chars_of(t);
                let mut i = input;
                while i.can_advance()
                    invariant
                        i.wf(),
                        i.body() == s,
                        input.wf(),
                        s == input.body(),
                        pos == input.pos(),
                        pos <= i.pos(),
                        *self == Parser::Until(*t),
                        tc@ == t@,
                        scan_until(t@, s, pos) == scan_until(t@, s, i.pos()),
                    decreases s.len() - i.pos(),
                {
                    if slice_eq(i.take(tc.len()), tc.as_slice()) {
                        assert(ahead(s, i.pos(), t@.len() as int) == t@);
                        assert(scan_until(t@, s, i.pos()) == Some(i.pos()));
                        let found = i.since(input.position());
                        return Ok((i, Value::Text(crate::stream::string_of(found))));
                    }
                    i = i.advance(1);
                }
                Err(ParseError { retry: true, message: reaches_end_message(), pos: input.position() })
            },
            Parser::Tagged(q, tag) => match q.run(rules, input, fuel) {
                Ok((i2, v)) => Ok((i2, Value::Tag(*tag, Box::new(v)))),
                Err(e) => Err(e),
            },
            Parser::MapTo(q, x) => match q.run(rules, input, fuel) {
                Ok((i2, _)) => Ok((i2, x.copy())),
                Err(e) => Err(e),
            },
            Parser::FlatMap(q, k) => match q.run(rules, input, fuel) {
                Ok((i2, v)) => match k {
                    Cont::Number => {
                        let mut t: Vec<char> = Vec::new();
                        text_of(&v, &mut t);
                        assert(t@ == tree_text(v@));
                        if number_check(&t) {
                            Ok((i2, v))
                        } else {
                            Err(ParseError {
                                retry: i2.position() == input.position(),
                                message: number_message(&t),
                                pos: i2.position(),
                            })
                        }
                    },
                },
                Err(e) => Err(e),
            },
            Parser::Then(a, b) => match a.run(rules, input, fuel) {
                Ok((i2, _)) => match b.run(rules, i2, fuel) {
                    Ok(r) => Ok(r),
                    Err(e) => Err(ParseError {
                        retry: if i2.position() == input.position() { e.retry } else { false },
                        message: e.message,
                        pos: e.pos,
                    }),
                },
                Err(e) => Err(e),
            },
            Parser::Skip(a, b) => match a.run(rules, input, fuel) {
                Ok((i2, v)) => match b.run(rules, i2, fuel) {
                    Ok((i3, _)) => Ok((i3, v)),
                    Err(e) => Err(ParseError {
                        retry: if i2.position() == input.position() { e.retry } else { false },
                        message: e.message,
                        pos: e.pos,
                    }),
                },
                Err(e) => Err(e),
            },
            Parser::And(a, b) => match a.run(rules, input, fuel) {
                Ok((i2, v)) => match b.run(rules, i2, fuel) {
                    Ok((i3, w)) => Ok((i3, Value::Pair(Box::new(v), Box::new(w)))),
                    Err(e) => Err(ParseError {
                        retry: if i2.position() == input.position() { e.retry } else { false },
                        message: e.message,
                        pos: e.pos,
                    }),
                },
                Err(e) => Err(e),
            },
            Parser::Or(a, b) => match a.run(rules, input, fuel) {
                Ok(r) => Ok(r),
                Err(e) => if e.retry {
                    b.run(rules, input, fuel)
                } else {
                    Err(e)
                },
            },
            Parser::OrNot(a) => match a.run(rules, input, fuel) {
                Ok((i2, v)) => Ok((i2, Value::Opt(Some(Box::new(v))))),
                Err(_) => Ok((input, Value::Opt(None))),
            },
            Parser::Try(a) => match a.run(rules, input, fuel) {
                Ok(r) => Ok(r),
                Err(e) => Err(ParseError { retry: true, message: e.message, pos: input.position() }),
            },
            Parser::Many(q) => {
                let mut vals: Vec<Value> = Vec::new();
                let mut i = input;
                loop
                    invariant_except_break
                        i.wf(),
                        i.body() == s,
                        s == input.body(),
                        pos == input.pos(),
                        pos <= i.pos(),
                        *self == Parser::Many(*q),
                        many_outcome(*self, rules@, s, pos, fuel as nat) == prepend(
                            trees_of(vals@),
                            many_outcome(*self, rules@, s, i.pos(), fuel as nat),
                        ),
                    ensures
                        i.wf(),
                        i.body() == s,
                        pos <= i.pos(),
                        many_outcome(*self, rules@, s, pos, fuel as nat) == Result::<
                            (int, Seq<Tree>),
                            Failure,
                        >::Ok((i.pos(), trees_of(vals@))),
                    decreases s.len() - i.pos(),
                {
                    proof {
                        assert(decreases_to!(*self => (*self)->Many_0));
                    }
                    let ghost before = trees_of(vals@);
                    match q.run(rules, i, fuel) {
                        Ok((i2, v)) => {
                            proof {
                                lemma_trees_of_push(vals@, v);
                                assert(before + seq![v@] == before.push(v@));
                                let rest = many_outcome(*self, rules@, s, i2.pos(), fuel as nat);
                                if let Ok((pos3, vs)) = rest {
                                    assert(before + (seq![v@] + vs) == before.push(v@) + vs);
                                }
                            }
                            vals.push(v);
                            let progressed = i2.position() > i.position();
                            i = i2;
                            if !progressed {
                                break;
                            }
                        },
                        Err(e) => {
                            if e.retry {
                                assert(before + seq![] == before);
                                break;
                            } else {
                                return Err(e);
                            }
                        },
                    }
                }
                Ok((i, Value::List(vals)))
            },
            Parser::SepBy(a, d) => {
                let mut vals: Vec<Value> = Vec::new();
                let mut i = input;
                match a.run(rules, input, fuel) {
                    Ok((i2, v)) => {
                        proof {
                            lemma_trees_of_push(vals@, v);
                            assert(trees_of(vals@) == Seq::<Tree>::empty());
                        }
                        vals.push(v);
                        i = i2;
                    },
                    Err(e) => {
                        if e.retry {
                            assert(trees_of(vals@) == Seq::<Tree>::empty());
                            return Ok((input, Value::List(vals)));
                        } else {
                            return Err(e);
                        }
                    },
                }
                loop
                    invariant_except_break
                        i.wf(),
                        i.body() == s,
                        s == input.body(),
                        pos == input.pos(),
                        pos <= i.pos(),
                        *self == Parser::SepBy(*a, *d),
                        outcome(*self, rules@, s, pos, fuel as nat) == match prepend(
                            trees_of(vals@),
                            sep_outcome(*self, rules@, s, i.pos(), fuel as nat),
                        ) {
                            Ok((pos3, vs)) => Outcome::Ok((pos3, Tree::List(vs))),
                            Err(e) => Outcome::Err(e),
                        },
                    ensures
                        i.wf(),
                        i.body() == s,
                        pos <= i.pos(),
                        outcome(*self, rules@, s, pos, fuel as nat) == Outcome::Ok(
                            (i.pos(), Tree::List(trees_of(vals@))),
                        ),
                    decreases s.len() - i.pos(),
                {
                    proof {
                        assert(decreases_to!(*self => (*self)->SepBy_0));
                        assert(decreases_to!(*self => (*self)->SepBy_1));
                    }
                    let ghost before = trees_of(vals@);
                    match d.run(rules, i, fuel) {
                        Ok((i2, _)) => {
                            match a.run(rules, i2, fuel) {
                                Ok((i3, v)) => {
                                    proof {
                                        lemma_trees_of_push(vals@, v);
                                        assert(before + seq![v@] == before.push(v@));
                                        let rest = sep_outcome(*self, rules@, s, i3.pos(), fuel as nat);
                                        if let Ok((pos4, vs)) = rest {
                                            assert(before + (seq![v@] + vs) == before.push(v@) + vs);
                                        }
                                    }
                                    vals.push(v);
                                    let progressed = i3.position() > i.position();
                                    i = i3;
                                    if !progressed {
                                        break;
                                    }
                                },
                                Err(e) => {
                                    return Err(e);
                                },
                            }
                        },
                        Err(e) => {
                            if e.retry {
                                assert(before + seq![] == before);
                                break;
                            } else {
                                return Err(e);
                            }
                        },
                    }
                }
                Ok((i, Value::List(vals)))
            },
            Parser::Rule(k) => {
                if *k >= rules.len() {
                    Err(ParseError {
                        retry: false,
                        message: String::from_str("Unknown rule."),
                        pos: input.position(),
                    })
                } else if fuel == 0 {
                    Err(ParseError {
                        retry: false,
                        message: String::from_str("Recursion limit reached."),
                        pos: input.position(),
                    })
                } else {
                    rules[*k].run(rules, input, fuel - 1)
                }
            },
        }
    }
}

/// The alternatives tried in order: each but the last made retryable.
pub open spec fn or_chain(ps: Seq<Parser>) -> Parser
    decreases ps.len(),
{
    if ps.len() <= 1 {
        ps[0]
    } else {
        Parser::Or(Box::new(Parser::Try(Box::new(or_chain(ps.drop_last())))), Box::new(ps.last()))
    }
}

/// The rule depth a run gets: enough for every rule to be entered once at
/// every offset along one chain of calls, which only a grammar that would
/// recurse forever can exceed.
pub open spec fn parse_fuel(n_rules: nat, len: nat) -> nat {
    if n_rules * (len + 1) > usize::MAX {
        usize::MAX as nat
    } else {
        n_rules * (len + 1)
    }
}

/// How a parse's result stands to the outcome of the run it made.
pub open spec fn parse_matches(r: Result<Value, ParseError>, o: Outcome) -> bool {
    match r {
        Ok(v) => o is Ok && o->Ok_0.1 == v@,
        Err(e) => o == Outcome::Err(e@),
    }
}

pub fn unit(x: Value) -> (r: Parser)
    ensures
        r == Parser::Unit(x),
{
    Parser::Unit(x)
}

/// Matches the text `s`.
pub fn string(s: &'static str) -> (r: Parser)
    ensures
        r == Parser::Str(s),
{
    Parser::Str(s)
}

pub fn chr(c: char) -> (r: Parser)
    ensures
        r == Parser::Chr(c),
{
    Parser::Chr(c)
}

pub fn failure(message: String) -> (r: Parser)
    ensures
        r == Parser::Failure(message),
{
    Parser::Failure(message)
}

/// Consumes everything before the first occurrence of `s`.
pub fn until(s: &'static str) -> (r: Parser)
    ensures
        r == Parser::Until(s),
{
    Parser::Until(s)
}

/// Refers to the rule of index `i` in the rule table the parser runs with.
pub fn rule(i: usize) -> (r: Parser)
    ensures
        r == Parser::Rule(i),
{
    Parser::Rule(i)
}

/// Tries the alternatives in order.
pub fn or_from(ps: Vec<Parser>) -> (r: Parser)
    requires
        ps.len() > 0,
    ensures
        r == or_chain(ps@),
{
    let ghost all = ps@;
    let mut ps = ps;
    let mut acc = ps.remove(0);
    let ghost mut k: int = 1;
    assert(all.take(1).len() == 1);
    while ps.len() > 0
        invariant
            1 <= k <= all.len(),
            ps@ == all.skip(k),
            acc == or_chain(all.take(k)),
        decreases ps.len(),
    {
        let p = ps.remove(0);
        assert(all.take(k + 1).drop_last() == all.take(k));
        assert(all.take(k + 1).last() == all[k]);
        acc = Parser::Or(Box::new(Parser::Try(Box::new(acc))), Box::new(p));
        proof {
            k = k + 1;
        }
    }
    assert(all.take(k) == all);
    acc
}

impl Parser {
    /// Runs the parser on `input`, with no rule table.
    pub fn parse(&self, input: &str) -> (r: Result<Value, ParseError>)
        ensures
            parse_matches(r, outcome(*self, seq![], input@, 0, 0)),
    {
        let rules: Vec<Parser> = Vec::new();
        let chars = crate::stream::chars_of(input);
        match self.run(&rules, StrStream::new(chars.as_slice()), 0) {
            Ok((_, v)) => Ok(v),
            Err(e) => Err(e),
        }
    }

    /// Runs the parser on `input`, with `rules` as the rule table.
    pub fn parse_with(&self, rules: &Vec<Parser>, input: &str) -> (r: Result<Value, ParseError>)
        ensures
            parse_matches(
                r,
                outcome(*self, rules@, input@, 0, parse_fuel(rules@.len(), input@.len())),
            ),
    {
        let chars = crate::stream::chars_of(input);
        let n = rules.len();
        let len = chars.len();
        let fuel: usize = if len == usize::MAX {
            proof {
                if n > 0 {
                    assert(n * (len + 1) >= len + 1) by (nonlinear_arith)
                        requires
                            n > 0,
                    ;
                }
            }
            if n == 0 {
                0
            } else {
                usize::MAX
            }
        } else if n == 0 {
            0
        } else if len + 1 > usize::MAX / n {
            assert(n * (len + 1) > usize::MAX) by (nonlinear_arith)
                requires
                    n > 0,
                    len + 1 > usize::MAX / n,
            ;
            usize::MAX
        } else {
            assert(n * (len + 1) <= usize::MAX) by (nonlinear_arith)
                requires
                    n > 0,
                    len + 1 <= usize::MAX / n,
            ;
            n * (len + 1)
        };
        match self.run(rules, StrStream::new(chars.as_slice()), fuel) {
            Ok((_, v)) => Ok(v),
            Err(e) => Err(e),
        }
    }

    /// Marks the value with `tag`.
    pub fn map(self, tag: u64) -> (r: Parser)
        ensures
            r == Parser::Tagged(Box::new(self), tag),
    {
        Parser::Tagged(Box::new(self), tag)
    }

    /// Replaces the value with `x`.
    pub fn map_(self, x: Value) -> (r: Parser)
        ensures
            r == Parser::MapTo(Box::new(self), x),
    {
        Parser::MapTo(Box::new(self), x)
    }

    pub fn flat_map(self, k: Cont) -> (r: Parser)
        ensures
            r == Parser::FlatMap(Box::new(self), k),
    {
        Parser::FlatMap(Box::new(self), k)
    }

    pub fn then_(self, p: Parser) -> (r: Parser)
        ensures
            r == Parser::Then(Box::new(self), Box::new(p)),
    {
        Parser::Then(Box::new(self), Box::new(p))
    }

    /// Like `then_`, with the rule of index `rule` second.
    pub fn then_lazy(self, rule: usize) -> (r: Parser)
        ensures
            r == Parser::Then(Box::new(self), Box::new(Parser::Rule(rule))),
    {
        Parser::Then(Box::new(self), Box::new(Parser::Rule(rule)))
    }

    pub fn skip(self, p: Parser) -> (r: Parser)
        ensures
            r == Parser::Skip(Box::new(self), Box::new(p)),
    {
        Parser::Skip(Box::new(self), Box::new(p))
    }

    pub fn and(self, p: Parser) -> (r: Parser)
        ensures
            r == Parser::And(Box::new(self), Box::new(p)),
    {
        Parser::And(Box::new(self), Box::new(p))
    }

    /// Like `and`, with the rule of index `rule` second.
    pub fn and_lazy(self, rule: usize) -> (r: Parser)
        ensures
            r == Parser::And(Box::new(self), Box::new(Parser::Rule(rule))),
    {
        Parser::And(Box::new(self), Box::new(Parser::Rule(rule)))
    }

    pub fn or(self, that: Parser) -> (r: Parser)
        ensures
            r == Parser::Or(Box::new(self), Box::new(that)),
    {
        Parser::Or(Box::new(self), Box::new(that))
    }

    /// Like `or`, with the rule of index `rule` as the alternative.
    pub fn or_lazy(self, rule: usize) -> (r: Parser)
        ensures
            r == Parser::Or(Box::new(self), Box::new(Parser::Rule(rule))),
    {
        Parser::Or(Box::new(self), Box::new(Parser::Rule(rule)))
    }

    pub fn or_not(self) -> (r: Parser)
        ensures
            r == Parser::OrNot(Box::new(self)),
    {
        Parser::OrNot(Box::new(self))
    }

    /// Makes every failure retryable, so that the parser can stand as an
    /// alternative of `or` even after it consumed input.
    pub fn try_(self) -> (r: Parser)
        ensures
            r == Parser::Try(Box::new(self)),
    {
        Parser::Try(Box::new(self))
    }

    pub fn many(self) -> (r: Parser)
        ensures
            r == Parser::Many(Box::new(self)),
    {
        Parser::Many(Box::new(self))
    }

    pub fn sep_by(self, delim: Parser) -> (r: Parser)
        ensures
            r == Parser::SepBy(Box::new(self), Box::new(delim)),
    {
        Parser::SepBy(Box::new(self), Box::new(delim))
    }

    /// The parser with any spaces around it skipped, its failures made
    /// retryable.
    pub fn with_spaces(self) -> (r: Parser)
        ensures
            r == Parser::Try(
                Box::new(
                    Parser::Skip(
                        Box::new(
                            Parser::Then(
                                Box::new(Parser::Many(Box::new(Parser::Chr(' ')))),
                                Box::new(self),
                            ),
                        ),
                        Box::new(Parser::Many(Box::new(Parser::Chr(' ')))),
                    ),
                ),
            ),
    {
        chr(' ').many().then_(self).skip(chr(' ').many()).try_()
    }
}

/// Commitment: once `a` has consumed input, a failure of `b` after it makes
/// the sequence fail without retry, whether the sequence keeps the second
/// value, the first, or both; and a choice whose first alternative is that
/// sequence passes the failure on without running its second alternative.
pub proof fn lemma_commitment(
    a: Parser,
    b: Parser,
    c: Parser,
    rules: Seq<Parser>,
    s: Seq<char>,
    pos: int,
    fuel: nat,
)
    requires
        0 <= pos <= s.len(),
        outcome(a, rules, s, pos, fuel) is Ok,
        outcome(a, rules, s, pos, fuel)->Ok_0.0 > pos,
        outcome(b, rules, s, outcome(a, rules, s, pos, fuel)->Ok_0.0, fuel) is Err,
    ensures
        ({
            let e = outcome(b, rules, s, outcome(a, rules, s, pos, fuel)->Ok_0.0, fuel)->Err_0;
            let hard = Outcome::Err(Failure { retry: false, message: e.message, pos: e.pos });
            &&& outcome(Parser::Then(Box::new(a), Box::new(b)), rules, s, pos, fuel) == hard
            &&& outcome(Parser::Skip(Box::new(a), Box::new(b)), rules, s, pos, fuel) == hard
            &&& outcome(Parser::And(Box::new(a), Box::new(b)), rules, s, pos, fuel) == hard
            &&& outcome(
                Parser::Or(Box::new(Parser::Then(Box::new(a), Box::new(b))), Box::new(c)),
                rules,
                s,
                pos,
                fuel,
            ) == hard
        }),
{
}

} // verus!
