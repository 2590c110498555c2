use vstd::prelude::*;
use vstd::string::*;

use crate::pretty::{
    doc_size, flat_text, flatable, lemma_render_keeps_non_blank_text, literal, newline, non_blank,
    render, render_seq, text, Doc, DocElem, Layout, MAX_DOC_SIZE,
};
use crate::parser::{
    chr, or_chain, or_from, outcome, parse_fuel, rule, string, text_of, tree_text, until, Cont,
    Outcome, Parser,
};
use crate::stream::{chars_of, string_of, Failure, ParseError};
use crate::value::{lemma_trees_of_len, trees_of, Tree, Value};

verus! {

broadcast use {
    vstd::seq::group_seq_axioms,
    vstd::seq_lib::group_seq_properties,
    vstd::std_specs::vec::group_vec_axioms,
};

/// A JSON value. A number is kept as its text; members of an object keep
/// their input order, duplicates included.
#[derive(Debug, PartialEq, Eq)]
pub enum Json {
    JNumber(String),
    JString(String),
    JBool(bool),
    JNull,
    JArray(Vec<Json>),
    JObject(Vec<(String, Json)>),
}

/// Tags the JSON grammar puts on the values it reads.
pub const NUMBER: u64 = 0;

pub const STRING: u64 = 1;

pub const TRUE: u64 = 2;

pub const FALSE: u64 = 3;

pub const NULL: u64 = 4;

pub const ARRAY: u64 = 5;

pub const OBJECT: u64 = 6;

/// The index of the JSON value rule in the grammar's rule table.
pub const VALUE: usize = 0;

/// `p` with the spaces around it skipped, its failures made retryable.
pub open spec fn spaced(p: Parser) -> Parser {
    Parser::Try(
        Box::new(
            Parser::Skip(
                Box::new(Parser::Then(Box::new(Parser::Many(Box::new(Parser::Chr(' ')))), Box::new(p))),
                Box::new(Parser::Many(Box::new(Parser::Chr(' ')))),
            ),
        ),
    )
}

/// One parser for each character a number may be made of.
pub open spec fn number_chars() -> Seq<Parser> {
    seq![
        Parser::Chr('-'),
        Parser::Chr('0'),
        Parser::Chr('1'),
        Parser::Chr('2'),
        Parser::Chr('3'),
        Parser::Chr('4'),
        Parser::Chr('5'),
        Parser::Chr('6'),
        Parser::Chr('7'),
        Parser::Chr('8'),
        Parser::Chr('9'),
        Parser::Chr('.'),
        Parser::Chr('E'),
        Parser::Chr('e'),
        Parser::Chr('+'),
    ]
}

pub open spec fn string_grammar() -> Parser {
    Parser::Skip(
        Box::new(Parser::Then(Box::new(Parser::Chr('"')), Box::new(Parser::Until("\"")))),
        Box::new(Parser::Chr('"')),
    )
}

pub open spec fn array_grammar() -> Parser {
    Parser::Tagged(
        Box::new(
            Parser::Skip(
                Box::new(
                    Parser::Then(
                        Box::new(spaced(Parser::Chr('['))),
                        Box::new(
                            Parser::SepBy(
                                Box::new(Parser::Rule(VALUE)),
                                Box::new(spaced(Parser::Chr(','))),
                            ),
                        ),
                    ),
                ),
                Box::new(spaced(Parser::Chr(']'))),
            ),
        ),
        ARRAY,
    )
}

pub open spec fn member_grammar() -> Parser {
    Parser::And(
        Box::new(Parser::Skip(Box::new(string_grammar()), Box::new(spaced(Parser::Chr(':'))))),
        Box::new(Parser::Rule(VALUE)),
    )
}

pub open spec fn object_grammar() -> Parser {
    Parser::Tagged(
        Box::new(
            Parser::Skip(
                Box::new(
                    Parser::Then(
                        Box::new(spaced(Parser::Chr('{'))),
                        Box::new(
                            Parser::SepBy(Box::new(member_grammar()), Box::new(spaced(Parser::Chr(',')))),
                        ),
                    ),
                ),
                Box::new(spaced(Parser::Chr('}'))),
            ),
        ),
        OBJECT,
    )
}

pub open spec fn null_grammar() -> Parser {
    Parser::Try(Box::new(Parser::Tagged(Box::new(Parser::Str("null")), NULL)))
}

pub open spec fn bool_grammar() -> Parser {
    Parser::Try(
        Box::new(
            Parser::Or(
                Box::new(Parser::Try(Box::new(Parser::Tagged(Box::new(Parser::Str("true")), TRUE)))),
                Box::new(Parser::Tagged(Box::new(Parser::Str("false")), FALSE)),
            ),
        ),
    )
}

pub open spec fn number_grammar() -> Parser {
    Parser::Tagged(
        Box::new(
            Parser::FlatMap(
                Box::new(
                    Parser::Try(
                        Box::new(
                            Parser::Many(
                                Box::new(
                                    or_chain(number_chars()),
                                ),
                            ),
                        ),
                    ),
                ),
                Cont::Number,
            ),
        ),
        NUMBER,
    )
}

/// A JSON value: an array, an object, a string, `null`, a boolean or a
/// number, tried in that order.
pub open spec fn value_grammar() -> Parser {
    Parser::Or(
        Box::new(
            Parser::Or(
                Box::new(
                    Parser::Or(
                        Box::new(
                            Parser::Or(
                                Box::new(Parser::Or(Box::new(array_grammar()), Box::new(object_grammar()))),
                                Box::new(Parser::Tagged(Box::new(string_grammar()), STRING)),
                            ),
                        ),
                        Box::new(null_grammar()),
                    ),
                ),
                Box::new(bool_grammar()),
            ),
        ),
        Box::new(number_grammar()),
    )
}

/// The JSON grammar's rule table.
pub open spec fn json_rules() -> Seq<Parser> {
    seq![value_grammar()]
}

fn parse_string() -> (r: Parser)
    ensures
        r == string_grammar(),
{
    chr('"').then_(until("\"")).skip(chr('"'))
}

fn parse_jarray() -> (r: Parser)
    ensures
        r == array_grammar(),
{
    chr('[').with_spaces().then_(rule(VALUE).sep_by(chr(',').with_spaces())).skip(
        chr(']').with_spaces(),
    ).map(ARRAY)
}

fn parse_keyvalue() -> (r: Parser)
    ensures
        r == member_grammar(),
{
    parse_string().skip(chr(':').with_spaces()).and(rule(VALUE))
}

fn parse_jobject() -> (r: Parser)
    ensures
        r == object_grammar(),
{
    chr('{').with_spaces().then_(parse_keyvalue().sep_by(chr(',').with_spaces())).skip(
        chr('}').with_spaces(),
    ).map(OBJECT)
}

fn parse_jnull() -> (r: Parser)
    ensures
        r == null_grammar(),
{
    string("null").map(NULL).try_()
}

fn parse_jbool() -> (r: Parser)
    ensures
        r == bool_grammar(),
{
    string("true").map(TRUE).try_().or(string("false").map(FALSE)).try_()
}

fn parse_jnumber() -> (r: Parser)
    ensures
        r == number_grammar(),
{
    let mut ps: Vec<Parser> = Vec::new();
    ps.push(chr('-'));
    ps.push(chr('0'));
    ps.push(chr('1'));
    ps.push(chr('2'));
    ps.push(chr('3'));
    ps.push(chr('4'));
    ps.push(chr('5'));
    ps.push(chr('6'));
    ps.push(chr('7'));
    ps.push(chr('8'));
    ps.push(chr('9'));
    ps.push(chr('.'));
    ps.push(chr('E'));
    ps.push(chr('e'));
    ps.push(chr('+'));
    assert(ps@ == number_chars());
    or_from(ps).many().try_().flat_map(Cont::Number).map(NUMBER)
}

/// The JSON grammar, as a rule table whose rule `VALUE` reads one value.
pub fn parse_json() -> (r: Vec<Parser>)
    ensures
        r@ == json_rules(),
{
    let value = parse_jarray().or(parse_jobject()).or(parse_string().map(STRING)).or(
        parse_jnull(),
    ).or(parse_jbool()).or(parse_jnumber());
    let mut rules: Vec<Parser> = Vec::new();
    rules.push(value);
    rules
}

/// `t` has the shape the JSON grammar gives a value.
pub open spec fn decodable(t: Tree) -> bool
    decreases t,
{
    match t {
        Tree::Tag(tag, x) => if tag == NUMBER || tag == TRUE || tag == FALSE || tag == NULL {
            true
        } else if tag == STRING {
            *x is Text
        } else if tag == ARRAY {
            match *x {
                Tree::List(ts) => forall|i: int| 0 <= i < ts.len() ==> decodable(#[trigger] ts[i]),
                _ => false,
            }
        } else if tag == OBJECT {
            match *x {
                Tree::List(ts) => forall|i: int|
                    0 <= i < ts.len() ==> match #[trigger] ts[i] {
                        Tree::Pair(k, v) => *k is Text && decodable(*v),
                        _ => false,
                    },
                _ => false,
            }
        } else {
            false
        },
        _ => false,
    }
}

/// `j` is the JSON value that the tree `t` stands for.
pub open spec fn json_matches(j: Json, t: Tree) -> bool
    decreases j,
{
    match j {
        Json::JNumber(n) => t is Tag && t->Tag_0 == NUMBER && n@ == tree_text(*t->Tag_1),
        Json::JString(s) => t == Tree::Tag(STRING, Box::new(Tree::Text(s@))),
        Json::JBool(b) => t is Tag && t->Tag_0 == (if b { TRUE } else { FALSE }),
        Json::JNull => t is Tag && t->Tag_0 == NULL,
        Json::JArray(items) => t is Tag && t->Tag_0 == ARRAY && match *t->Tag_1 {
            Tree::List(ts) => ts.len() == items.len() && forall|i: int|
                0 <= i < ts.len() ==> json_matches(#[trigger] items@[i], ts[i]),
            _ => false,
        },
        Json::JObject(ms) => t is Tag && t->Tag_0 == OBJECT && match *t->Tag_1 {
            Tree::List(ts) => ts.len() == ms.len() && forall|i: int|
                0 <= i < ts.len() ==> match #[trigger] ts[i] {
                    Tree::Pair(k, v) => *k == Tree::Text(ms@[i].0@) && json_matches(ms@[i].1, *v),
                    _ => false,
                },
            _ => false,
        },
    }
}

/// The message for a parse tree that is not a JSON value.
pub open spec fn msg_malformed() -> Seq<char> {
    "Malformed value."@
}

impl Json {
    /// The JSON value a parse tree of the JSON grammar stands for.
    pub fn from_value(v: &Value) -> (r: Option<Json>)
        ensures
            r is Some <==> decodable(v@),
            r is Some ==> json_matches(r->Some_0, v@),
        decreases v,
    {
        match v {
            Value::Tag(tag, x) => {
                if *tag == NUMBER {
                    let mut t: Vec<char> = Vec::new();
                    text_of(x, &mut t);
                    assert(t@ == tree_text(x@));
                    Some(Json::JNumber(string_of(t.as_slice())))
                } else if *tag == TRUE {
                    Some(Json::JBool(true))
                } else if *tag == FALSE {
                    Some(Json::JBool(false))
                } else if *tag == NULL {
                    Some(Json::JNull)
                } else if *tag == STRING {
                    match &**x {
                        Value::Text(s) => Some(Json::JString(s.clone())),
                        _ => None,
                    }
                } else if *tag == ARRAY {
                    match &**x {
                        Value::List(vs) => {
                            proof {
                                lemma_trees_of_len(vs@);
                                reveal_with_fuel(crate::value::tree_of, 2);
                                assert(v@ == Tree::Tag(*tag, Box::new(Tree::List(trees_of(vs@)))));
                            }
                            let mut items: Vec<Json> = Vec::new();
                            let mut i: usize = 0;
                            while i < vs.len()
                                invariant
                                    i <= vs.len(),
                                    *v == Value::Tag(*tag, Box::new(Value::List(*vs))),
                                    *tag == ARRAY,
                                    v@ == Tree::Tag(*tag, Box::new(Tree::List(trees_of(vs@)))),
                                    trees_of(vs@).len() == vs@.len(),
                                    forall|k: int| 0 <= k < vs@.len() ==> #[trigger] trees_of(vs@)[k] == tree_of_at(vs@, k),
                                    items@.len() == i,
                                    forall|k: int| 0 <= k < i ==> decodable(#[trigger] trees_of(vs@)[k]),
                                    forall|k: int| 0 <= k < i ==> json_matches(#[trigger] items@[k], trees_of(vs@)[k]),
                                decreases vs.len() - i,
                            {
                                proof {
                                    assert(decreases_to!(*v => (*v)->Tag_1));
                                    assert(decreases_to!(*(*v)->Tag_1 => (*(*v)->Tag_1)->List_0));
                                    assert(decreases_to!(*vs => vs[i as int]));
                                }
                                match Json::from_value(&vs[i]) {
                                    Some(j) => {
                                        items.push(j);
                                    },
                                    None => {
                                        assert(!decodable(trees_of(vs@)[i as int]));
                                        assert(v@ == Tree::Tag(ARRAY, Box::new(Tree::List(trees_of(vs@)))));
                                        assert(!decodable(v@));
                                        return None;
                                    },
                                }
                                i = i + 1;
                            }
                            Some(Json::JArray(items))
                        },
                        _ => None,
                    }
                } else if *tag == OBJECT {
                    match &**x {
                        Value::List(vs) => {
                            proof {
                                lemma_trees_of_len(vs@);
                                reveal_with_fuel(crate::value::tree_of, 2);
                                assert(v@ == Tree::Tag(*tag, Box::new(Tree::List(trees_of(vs@)))));
                            }
                            let mut ms: Vec<(String, Json)> = Vec::new();
                            let mut i: usize = 0;
                            while i < vs.len()
                                invariant
                                    i <= vs.len(),
                                    *v == Value::Tag(*tag, Box::new(Value::List(*vs))),
                                    *tag == OBJECT,
                                    v@ == Tree::Tag(*tag, Box::new(Tree::List(trees_of(vs@)))),
                                    trees_of(vs@).len() == vs@.len(),
                                    forall|k: int| 0 <= k < vs@.len() ==> #[trigger] trees_of(vs@)[k] == tree_of_at(vs@, k),
                                    ms@.len() == i,
                                    forall|k: int|
                                        0 <= k < i ==> match #[trigger] trees_of(vs@)[k] {
                                            Tree::Pair(kt, vt) => *kt is Text && decodable(*vt),
                                            _ => false,
                                        },
                                    forall|k: int|
                                        0 <= k < i ==> match #[trigger] trees_of(vs@)[k] {
                                            Tree::Pair(kt, vt) => *kt == Tree::Text(ms@[k].0@)
                                                && json_matches(ms@[k].1, *vt),
                                            _ => false,
                                        },
                                decreases vs.len() - i,
                            {
                                proof {
                                    assert(decreases_to!(*v => (*v)->Tag_1));
                                    assert(decreases_to!(*(*v)->Tag_1 => (*(*v)->Tag_1)->List_0));
                                    assert(decreases_to!(*vs => vs[i as int]));
                                }
                                match &vs[i] {
                                    Value::Pair(kv, vv) => {
                                        proof {
                                            assert(decreases_to!(vs[i as int] => vs[i as int]->Pair_1));
                                            assert(vs@[i as int]@ == Tree::Pair(Box::new(kv@), Box::new(vv@)));
                                        }
                                        match &**kv {
                                            Value::Text(key) => match Json::from_value(vv) {
                                                Some(j) => {
                                                    assert(kv@ == Tree::Text(key@));
                                                    ms.push((key.clone(), j));
                                                },
                                                None => {
                                                    proof {
                                                        lemma_object_rejects(*v, vs@, i as int);
                                                    }
                                                    return None;
                                                },
                                            },
                                            _ => {
                                                proof {
                                                    assert(!(kv@ is Text));
                                                    lemma_object_rejects(*v, vs@, i as int);
                                                }
                                                return None;
                                            },
                                        }
                                    },
                                    _ => {
                                        proof {
                                            lemma_object_rejects(*v, vs@, i as int);
                                        }
                                        return None;
                                    },
                                }
                                i = i + 1;
                            }
                            Some(Json::JObject(ms))
                        },
                        _ => None,
                    }
                } else {
                    None
                }
            },
            _ => None,
        }
    }

    /// Parses one JSON value at the start of `s`; what follows it is left.
    pub fn from_str(s: &str) -> (r: Result<Json, ParseError>)
        ensures
            ({
                let o = outcome(Parser::Rule(VALUE), json_rules(), s@, 0, parse_fuel(1, s@.len()));
                match r {
                    Ok(j) => o is Ok && json_matches(j, o->Ok_0.1),
                    Err(e) => o == Outcome::Err(e@) || (o is Ok && !decodable(o->Ok_0.1)
                        && e@ == Failure { retry: false, message: msg_malformed(), pos: 0 }),
                }
            }),
    {
        let rules = parse_json();
        match rule(VALUE).parse_with(&rules, s) {
            Ok(v) => match Json::from_value(&v) {
                Some(j) => Ok(j),
                None => Err(
                    ParseError { retry: false, message: String::from_str("Malformed value."), pos: 0 },
                ),
            },
            Err(e) => Err(e),
        }
    }
}

spec fn tree_of_at(vs: Seq<Value>, k: int) -> Tree {
    vs[k]@
}

proof fn lemma_object_rejects(v: Value, vs: Seq<Value>, i: int)
    requires
        v@ == Tree::Tag(OBJECT, Box::new(Tree::List(trees_of(vs)))),
        0 <= i < vs.len(),
        trees_of(vs).len() == vs.len(),
        trees_of(vs)[i] == vs[i]@,
        !(match vs[i]@ {
            Tree::Pair(kt, vt) => *kt is Text && decodable(*vt),
            _ => false,
        }),
    ensures
        !decodable(v@),
{
}

/// The indent of the members of an array or object, per level.
pub const INDENT_DEPTH: i32 = 2;

/// `d` is a text node holding `t`.
pub open spec fn text_is(d: DocElem, t: Seq<char>) -> bool {
    match d {
        DocElem::Literal(s) => s@ == t,
        DocElem::Text(s) => s@ == t,
        _ => false,
    }
}

pub open spec fn quoted(s: Seq<char>) -> Seq<char> {
    "\""@ + s + "\""@
}

/// `d` is the document of `j`: a scalar is its text (a string in quotes);
/// an empty array or object is `[]` or `{}`; otherwise a group of the opening
/// bracket, a line break that indents by two, the members separated by a
/// comma and a line break, a line break that dedents by two, and the closing
/// bracket. A member of an object is its quoted key, `: ` and its value.
pub open spec fn doc_of(j: Json, d: DocElem) -> bool
    decreases j,
{
    match j {
        Json::JNumber(n) => text_is(d, n@),
        Json::JString(s) => text_is(d, quoted(s@)),
        Json::JBool(b) => text_is(d, if b { "true"@ } else { "false"@ }),
        Json::JNull => text_is(d, "null"@),
        Json::JArray(items) => if items.len() == 0 {
            text_is(d, "[]"@)
        } else {
            match d {
                DocElem::Flatable(ds) => {
                    let n = items.len() as int;
                    &&& ds@.len() == 3 * n + 2
                    &&& text_is(ds@[0], "["@)
                    &&& ds@[1] == DocElem::Newline(2)
                    &&& forall|i: int| 0 <= i < n ==> doc_of(#[trigger] items@[i], ds@[3 * i + 2])
                    &&& forall|i: int|
                        0 < i < n ==> text_is(#[trigger] ds@[3 * i], ","@) && ds@[3 * i + 1]
                            == DocElem::Newline(0)
                    &&& ds@[3 * n] == DocElem::Newline(-2i32)
                    &&& text_is(ds@[3 * n + 1], "]"@)
                },
                _ => false,
            }
        },
        Json::JObject(ms) => if ms.len() == 0 {
            text_is(d, "{}"@)
        } else {
            match d {
                DocElem::Flatable(ds) => {
                    let n = ms.len() as int;
                    &&& ds@.len() == 5 * n + 2
                    &&& text_is(ds@[0], "{"@)
                    &&& ds@[1] == DocElem::Newline(2)
                    &&& forall|i: int|
                        0 <= i < n ==> text_is(#[trigger] ds@[5 * i + 2], quoted(ms@[i].0@))
                            && text_is(ds@[5 * i + 3], ": "@) && doc_of(ms@[i].1, ds@[5 * i + 4])
                    &&& forall|i: int|
                        0 < i < n ==> text_is(#[trigger] ds@[5 * i], ","@) && ds@[5 * i + 1]
                            == DocElem::Newline(0)
                    &&& ds@[5 * n] == DocElem::Newline(-2i32)
                    &&& text_is(ds@[5 * n + 1], "}"@)
                },
                _ => false,
            }
        },
    }
}

fn quote(s: &String) -> (r: String)
    ensures
        r@ == quoted(s@),
{
    let mut q = String::from_str("\"");
    q.append(s.as_str());
    q.append("\"");
    q
}

fn json_to_doc_elem(json: &Json) -> (r: DocElem)
    ensures
        doc_of(*json, r),
    decreases json, 0nat,
{
    match json {
        Json::JNumber(v) => text(v.clone()),
        Json::JString(s) => text(quote(s)),
        Json::JBool(b) => if *b {
            literal("true")
        } else {
            literal("false")
        },
        Json::JNull => literal("null"),
        Json::JArray(jsons) => {
            proof {
                assert(decreases_to!(*json => (*json)->JArray_0));
            }
            json_vec_to_flatable_doc_elem(jsons)
        },
        Json::JObject(obj) => {
            proof {
                assert(decreases_to!(*json => (*json)->JObject_0));
            }
            json_object_to_flatable_doc_elem(obj)
        },
    }
}

fn json_vec_to_flatable_doc_elem(jsons: &Vec<Json>) -> (r: DocElem)
    ensures
        doc_of(Json::JArray(*jsons), r),
    decreases jsons, 1nat,
{
    if jsons.len() == 0 {
        return literal("[]");
    }
    let mut ret: Vec<DocElem> = Vec::new();
    ret.push(literal("["));
    ret.push(newline(INDENT_DEPTH));
    proof {
        assert(decreases_to!(*jsons => jsons[0]));
    }
    ret.push(json_to_doc_elem(&jsons[0]));
    let mut i: usize = 1;
    while i < jsons.len()
        invariant
            1 <= i <= jsons.len(),
            ret@.len() == 3 * i,
            text_is(ret@[0], "["@),
            ret@[1] == DocElem::Newline(2),
            forall|k: int| 0 <= k < i ==> doc_of(#[trigger] jsons@[k], ret@[3 * k + 2]),
            forall|k: int|
                0 < k < i ==> text_is(#[trigger] ret@[3 * k], ","@) && ret@[3 * k + 1]
                    == DocElem::Newline(0),
        decreases jsons.len() - i,
    {
        proof {
            assert(decreases_to!(*jsons => jsons[i as int]));
        }
        ret.push(literal(","));
        ret.push(newline(0));
        ret.push(json_to_doc_elem(&jsons[i]));
        i = i + 1;
    }
    ret.push(newline(-2));
    ret.push(literal("]"));
    flatable(ret)
}

fn json_keyvalue_to_doc_elems(keyvalue: &(String, Json), ret: &mut Vec<DocElem>)
    ensures
        final(ret)@.len() == old(ret)@.len() + 3,
        forall|k: int| 0 <= k < old(ret)@.len() ==> final(ret)@[k] == old(ret)@[k],
        text_is(final(ret)@[old(ret)@.len() as int], quoted(keyvalue.0@)),
        text_is(final(ret)@[old(ret)@.len() as int + 1], ": "@),
        doc_of(keyvalue.1, final(ret)@[old(ret)@.len() as int + 2]),
    decreases keyvalue, 0nat,
{
    let (k, v) = keyvalue;
    ret.push(text(quote(k)));
    ret.push(literal(": "));
    proof {
        assert(decreases_to!(*keyvalue => keyvalue.1));
    }
    ret.push(json_to_doc_elem(v));
}

fn json_object_to_flatable_doc_elem(obj: &Vec<(String, Json)>) -> (r: DocElem)
    ensures
        doc_of(Json::JObject(*obj), r),
    decreases obj, 1nat,
{
    if obj.len() == 0 {
        return literal("{}");
    }
    let mut ret: Vec<DocElem> = Vec::new();
    ret.push(literal("{"));
    ret.push(newline(INDENT_DEPTH));
    proof {
        assert(decreases_to!(*obj => obj[0]));
    }
    json_keyvalue_to_doc_elems(&obj[0], &mut ret);
    let mut i: usize = 1;
    while i < obj.len()
        invariant
            1 <= i <= obj.len(),
            ret@.len() == 5 * i,
            text_is(ret@[0], "{"@),
            ret@[1] == DocElem::Newline(2),
            forall|k: int|
                0 <= k < i ==> text_is(#[trigger] ret@[5 * k + 2], quoted(obj@[k].0@)) && text_is(
                    ret@[5 * k + 3],
                    ": "@,
                ) && doc_of(obj@[k].1, ret@[5 * k + 4]),
            forall|k: int|
                0 < k < i ==> text_is(#[trigger] ret@[5 * k], ","@) && ret@[5 * k + 1]
                    == DocElem::Newline(0),
        decreases obj.len() - i,
    {
        proof {
            assert(decreases_to!(*obj => obj[i as int]));
        }
        ret.push(literal(","));
        ret.push(newline(0));
        json_keyvalue_to_doc_elems(&obj[i], &mut ret);
        i = i + 1;
    }
    let ghost body = ret@;
    ret.push(newline(-2));
    ret.push(literal("}"));
    assert forall|k: int| 0 <= k < obj.len() implies text_is(
        #[trigger] ret@[5 * k + 2],
        quoted(obj@[k].0@),
    ) && text_is(ret@[5 * k + 3], ": "@) && doc_of(obj@[k].1, ret@[5 * k + 4]) by {
        assert(ret@[5 * k + 2] == body[5 * k + 2]);
        assert(ret@[5 * k + 3] == body[5 * k + 3]);
        assert(ret@[5 * k + 4] == body[5 * k + 4]);
    }
    let n = obj.len();
    assert(ret@.len() == 5 * n + 2);
    assert(text_is(ret@[0], "{"@));
    assert(ret@[1] == DocElem::Newline(2));
    assert(ret@[5 * n] == DocElem::Newline(-2i32));
    assert(text_is(ret@[5 * n + 1], "}"@));
    assert forall|k: int| 0 < k < n implies text_is(#[trigger] ret@[5 * k], ","@) && ret@[5 * k + 1] == DocElem::Newline(0) by {
        assert(ret@[5 * k] == body[5 * k]);
    }
    flatable(ret)
}

impl Json {
    /// The document of the value.
    pub fn to_doc(&self) -> (r: DocElem)
        ensures
            doc_of(*self, r),
    {
        json_to_doc_elem(self)
    }

    /// The document of the value rendered at `width`; a value whose document
    /// exceeds the renderer's limits renders as nothing.
    pub fn pretty_print(&self, width: i32) -> (r: String)
        ensures
            exists|e: DocElem|
                doc_of(*self, e) && (doc_size(seq![e]) <= MAX_DOC_SIZE ==> r@ == render(
                    seq![e],
                    width as int,
                )),
    {
        let e = json_to_doc_elem(self);
        let ghost ge = e;
        let mut elems: Vec<DocElem> = Vec::new();
        elems.push(e);
        let d = Doc::new(elems);
        assert(d@ == seq![ge]);
        if d.fits_limits() {
            d.pretty(width)
        } else {
            String::new()
        }
    }
}

/// The document of `json` rendered at `width`.
pub fn print_json(json: &Json, width: i32) -> (r: String)
    ensures
        exists|e: DocElem|
            doc_of(*json, e) && (doc_size(seq![e]) <= MAX_DOC_SIZE ==> r@ == render(
                seq![e],
                width as int,
            )),
{
    json.pretty_print(width)
}

/// Empty containers: the document of an empty array or object renders as
/// `[]` or `{}` at every width.
pub proof fn lemma_empty_container_renders_bare(j: Json, d: DocElem, width: int)
    requires
        doc_of(j, d),
        (j is JArray && j->JArray_0@.len() == 0) || (j is JObject && j->JObject_0@.len() == 0),
    ensures
        render(seq![d], width) == (if j is JArray { "[]"@ } else { "{}"@ }),
{
    let ds = seq![d];
    assert(ds.drop_last() == Seq::<DocElem>::empty());
    assert(ds.last() == d);
    let t = if j is JArray { "[]"@ } else { "{}"@ };
    assert(text_is(d, t));
    let st = Layout { rest: width, indent: 0, out: seq![] };
    assert(render_seq(ds.drop_last(), width, st) == st);
    assert(Seq::<char>::empty() + t == t);
    assert(render_seq(ds, width, st).out == t);
}

/// The one-line JSON text of `j`: members of an array or object are
/// separated by `, `, and a non-empty array or object has a space inside
/// each bracket.
pub open spec fn json_line(j: Json) -> Seq<char>
    decreases j,
{
    match j {
        Json::JNumber(n) => n@,
        Json::JString(s) => quoted(s@),
        Json::JBool(b) => if b { "true"@ } else { "false"@ },
        Json::JNull => "null"@,
        Json::JArray(items) => if items.len() == 0 {
            "[]"@
        } else {
            "["@ + seq![' '] + items_line(items@) + seq![' '] + "]"@
        },
        Json::JObject(ms) => if ms.len() == 0 {
            "{}"@
        } else {
            "{"@ + seq![' '] + members_line(ms@) + seq![' '] + "}"@
        },
    }
}

pub open spec fn items_line(items: Seq<Json>) -> Seq<char>
    decreases items,
{
    if items.len() == 0 {
        seq![]
    } else if items.len() == 1 {
        json_line(items[0])
    } else {
        items_line(items.drop_last()) + ","@ + seq![' '] + json_line(items.last())
    }
}

pub open spec fn member_line(m: (String, Json)) -> Seq<char>
    decreases m,
{
    quoted(m.0@) + ": "@ + json_line(m.1)
}

pub open spec fn members_line(ms: Seq<(String, Json)>) -> Seq<char>
    decreases ms,
{
    if ms.len() == 0 {
        seq![]
    } else if ms.len() == 1 {
        member_line(ms[0])
    } else {
        members_line(ms.drop_last()) + ","@ + seq![' '] + member_line(ms.last())
    }
}

proof fn lemma_flat_single(e: DocElem)
    ensures
        flat_text(seq![e]) == match e {
            DocElem::Literal(s) => s@,
            DocElem::Text(s) => s@,
            DocElem::Newline(_) => seq![' '],
            DocElem::Flatable(v) => flat_text(v@),
        },
{
    let ds = seq![e];
    assert(ds.drop_last() == Seq::<DocElem>::empty());
    assert(flat_text(ds.drop_last()) == Seq::<char>::empty());
    let t = match e {
        DocElem::Literal(s) => s@,
        DocElem::Text(s) => s@,
        DocElem::Newline(_) => seq![' '],
        DocElem::Flatable(v) => flat_text(v@),
    };
    assert(Seq::<char>::empty() + t == t);
}

proof fn lemma_flat_step(ds: Seq<DocElem>, m: int)
    requires
        0 <= m < ds.len(),
    ensures
        flat_text(ds.take(m + 1)) == flat_text(ds.take(m)) + flat_text(seq![ds[m]]),
{
    assert(ds.take(m + 1).drop_last() == ds.take(m));
    assert(ds.take(m + 1).last() == ds[m]);
    lemma_flat_single(ds[m]);
}

proof fn lemma_text_flat(d: DocElem, t: Seq<char>)
    requires
        text_is(d, t),
    ensures
        flat_text(seq![d]) == t,
{
    lemma_flat_single(d);
}

proof fn lemma_items_flat(items: Seq<Json>, ds: Seq<DocElem>, k: int)
    requires
        1 <= k <= items.len(),
        ds.len() >= 3 * items.len(),
        text_is(ds[0], "["@),
        ds[1] == DocElem::Newline(2),
        forall|i: int| 0 <= i < items.len() ==> doc_of(#[trigger] items[i], ds[3 * i + 2]),
        forall|i: int|
            0 < i < items.len() ==> text_is(#[trigger] ds[3 * i], ","@) && ds[3 * i + 1]
                == DocElem::Newline(0),
    ensures
        flat_text(ds.take(3 * k)) == "["@ + seq![' '] + items_line(items.take(k)),
    decreases items, k,
{
    lemma_json_flat(items[k - 1], ds[3 * (k - 1) + 2]);
    if k == 1 {
        lemma_flat_step(ds, 0);
        lemma_flat_step(ds, 1);
        lemma_flat_step(ds, 2);
        assert(ds.take(0) == Seq::<DocElem>::empty());
        lemma_text_flat(ds[0], "["@);
        assert(items.take(1).len() == 1);
        assert(items.take(1)[0] == items[0]);
        assert(flat_text(seq![ds[1]]) == seq![' ']) by {
            lemma_flat_single(ds[1]);
        }
        assert(Seq::<char>::empty() + "["@ == "["@);
    } else {
        lemma_items_flat(items, ds, k - 1);
        let m = 3 * (k - 1);
        lemma_flat_step(ds, m);
        lemma_flat_step(ds, m + 1);
        lemma_flat_step(ds, m + 2);
        lemma_text_flat(ds[m], ","@);
        assert(flat_text(seq![ds[m + 1]]) == seq![' ']) by {
            lemma_flat_single(ds[m + 1]);
        }
        assert(items.take(k).drop_last() == items.take(k - 1));
        assert(items.take(k).last() == items[k - 1]);
    }
}

proof fn lemma_members_flat(ms: Seq<(String, Json)>, ds: Seq<DocElem>, k: int)
    requires
        1 <= k <= ms.len(),
        ds.len() >= 5 * ms.len(),
        text_is(ds[0], "{"@),
        ds[1] == DocElem::Newline(2),
        forall|i: int|
            0 <= i < ms.len() ==> text_is(#[trigger] ds[5 * i + 2], quoted(ms[i].0@)) && text_is(
                ds[5 * i + 3],
                ": "@,
            ) && doc_of(ms[i].1, ds[5 * i + 4]),
        forall|i: int|
            0 < i < ms.len() ==> text_is(#[trigger] ds[5 * i], ","@) && ds[5 * i + 1]
                == DocElem::Newline(0),
    ensures
        flat_text(ds.take(5 * k)) == "{"@ + seq![' '] + members_line(ms.take(k)),
    decreases ms, k,
{
    let m = 5 * (k - 1);
    assert(text_is(ds[m + 2], quoted(ms[k - 1].0@)));
    lemma_json_flat(ms[k - 1].1, ds[m + 4]);
    lemma_flat_step(ds, m + 2);
    lemma_flat_step(ds, m + 3);
    lemma_flat_step(ds, m + 4);
    lemma_text_flat(ds[m + 2], quoted(ms[k - 1].0@));
    lemma_text_flat(ds[m + 3], ": "@);
    if k == 1 {
        lemma_flat_step(ds, 0);
        lemma_flat_step(ds, 1);
        assert(ds.take(0) == Seq::<DocElem>::empty());
        lemma_text_flat(ds[0], "{"@);
        assert(flat_text(seq![ds[1]]) == seq![' ']) by {
            lemma_flat_single(ds[1]);
        }
        assert(ms.take(1).len() == 1);
        assert(ms.take(1)[0] == ms[0]);
        assert(Seq::<char>::empty() + "{"@ == "{"@);
        let item = quoted(ms[0].0@) + ": "@ + json_line(ms[0].1);
        assert(member_line(ms[0]) == item);
        assert(flat_text(ds.take(5)) == "{"@ + seq![' '] + quoted(ms[0].0@) + ": "@ + json_line(ms[0].1));
        assert("{"@ + seq![' '] + quoted(ms[0].0@) + ": "@ + json_line(ms[0].1) == "{"@ + seq![' '] + item);
    } else {
        lemma_members_flat(ms, ds, k - 1);
        lemma_flat_step(ds, m);
        lemma_flat_step(ds, m + 1);
        lemma_text_flat(ds[m], ","@);
        assert(flat_text(seq![ds[m + 1]]) == seq![' ']) by {
            lemma_flat_single(ds[m + 1]);
        }
        assert(ms.take(k).drop_last() == ms.take(k - 1));
        assert(ms.take(k).last() == ms[k - 1]);
        let head = "{"@ + seq![' '] + members_line(ms.take(k - 1));
        let item = quoted(ms[k - 1].0@) + ": "@ + json_line(ms[k - 1].1);
        assert(member_line(ms[k - 1]) == item);
        assert(flat_text(ds.take(m + 5)) == head + ","@ + seq![' '] + quoted(ms[k - 1].0@) + ": "@
            + json_line(ms[k - 1].1));
        assert(head + ","@ + seq![' '] + quoted(ms[k - 1].0@) + ": "@ + json_line(ms[k - 1].1) == head
            + ","@ + seq![' '] + item);
    }
}

#[verifier::spinoff_prover]
#[verifier::rlimit(100)]
proof fn lemma_array_flat(j: Json, d: DocElem)
    requires
        doc_of(j, d),
        j is JArray,
        j->JArray_0.len() > 0,
    ensures
        flat_text(seq![d]) == json_line(j),
    decreases j, 1int,
{
    let items = j->JArray_0@;
    let ds = d->Flatable_0@;
    let n = items.len() as int;
    assert(d is Flatable);
    assert(ds.len() == 3 * n + 2);
    assert(ds[3 * n] == DocElem::Newline(-2i32));
    assert(text_is(ds[3 * n + 1], "]"@));
    assert(decreases_to!(j => j->JArray_0));
    lemma_items_flat(items, ds, n);
    let inner = flat_text(ds.take(3 * n));
    assert(items.take(n) == items);
    assert(inner == "["@ + seq![' '] + items_line(items));
    assert(flat_text(seq![ds[3 * n]]) == seq![' ']) by {
        lemma_flat_single(ds[3 * n]);
    }
    lemma_text_flat(ds[3 * n + 1], "]"@);
    lemma_flat_step(ds, 3 * n);
    lemma_flat_step(ds, 3 * n + 1);
    assert(ds.take(3 * n + 2) == ds);
    lemma_flat_single(d);
    assert(json_line(j) == "["@ + seq![' '] + items_line(items) + seq![' '] + "]"@);
}

#[verifier::spinoff_prover]
#[verifier::rlimit(100)]
proof fn lemma_object_flat(j: Json, d: DocElem)
    requires
        doc_of(j, d),
        j is JObject,
        j->JObject_0.len() > 0,
    ensures
        flat_text(seq![d]) == json_line(j),
    decreases j, 1int,
{
    let ms = j->JObject_0@;
    let ds = d->Flatable_0@;
    let n = ms.len() as int;
    assert(d is Flatable);
    assert(ds.len() == 5 * n + 2);
    assert(ds[5 * n] == DocElem::Newline(-2i32));
    assert(text_is(ds[5 * n + 1], "}"@));
    assert forall|i: int|
        0 <= i < ms.len() implies text_is(#[trigger] ds[5 * i + 2], quoted(ms[i].0@)) && text_is(
            ds[5 * i + 3],
            ": "@,
        ) && doc_of(ms[i].1, ds[5 * i + 4]) by {
        assert(text_is(ds[5 * i + 2], quoted(ms[i].0@)));
    }
    assert(decreases_to!(j => j->JObject_0));
    lemma_members_flat(ms, ds, n);
    let inner = flat_text(ds.take(5 * n));
    assert(ms.take(n) == ms);
    assert(inner == "{"@ + seq![' '] + members_line(ms));
    assert(flat_text(seq![ds[5 * n]]) == seq![' ']) by {
        lemma_flat_single(ds[5 * n]);
    }
    lemma_text_flat(ds[5 * n + 1], "}"@);
    lemma_flat_step(ds, 5 * n);
    lemma_flat_step(ds, 5 * n + 1);
    assert(ds.take(5 * n + 2) == ds);
    lemma_flat_single(d);
    assert(json_line(j) == "{"@ + seq![' '] + members_line(ms) + seq![' '] + "}"@);
}

/// The document of a JSON value, laid out on one line, is the value's
/// one-line JSON text.
pub proof fn lemma_json_flat(j: Json, d: DocElem)
    requires
        doc_of(j, d),
    ensures
        flat_text(seq![d]) == json_line(j),
    decreases j, 2int,
{
    match j {
        Json::JArray(items) => {
            if items.len() == 0 {
                lemma_text_flat(d, "[]"@);
            } else {
                lemma_array_flat(j, d);
            }
        },
        Json::JObject(ms) => {
            if ms.len() == 0 {
                lemma_text_flat(d, "{}"@);
            } else {
                lemma_object_flat(j, d);
            }
        },
        Json::JNumber(v) => lemma_text_flat(d, v@),
        Json::JString(v) => lemma_text_flat(d, quoted(v@)),
        Json::JBool(b) => lemma_text_flat(d, if b { "true"@ } else { "false"@ }),
        Json::JNull => lemma_text_flat(d, "null"@),
    }
}

/// Printing keeps the JSON text: the document of a value renders, at any
/// width, as its one-line JSON text up to spaces and line breaks.
pub proof fn lemma_render_json_text(j: Json, d: DocElem, width: int)
    requires
        doc_of(j, d),
    ensures
        non_blank(render(seq![d], width)) == non_blank(json_line(j)),
{
    lemma_json_flat(j, d);
    lemma_render_keeps_non_blank_text(seq![d], width);
}

} // verus!
