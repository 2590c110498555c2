//! A parser-combinator engine over a character cursor with explicit
//! backtracking control, a width-sensitive document renderer, and a JSON
//! grammar and printer built on the two.
//!
//! - `stream`: the cursor and the failure type.
//! - `value`: what parsers yield.
//! - `parser`: parsers as trees of primitives and combinators, their
//!   meaning (`outcome`) and the interpreter that runs them.
//! - `pretty`: documents and the renderer.
//! - `json`: the JSON grammar, decoding of its parse trees, and documents of
//!   JSON values.
mod json;
mod parser;
mod pretty;
mod stream;
mod value;

pub use json::{
    array_grammar, bool_grammar, decodable, doc_of, json_matches, json_rules,
    json_line, items_line, lemma_empty_container_renders_bare, lemma_json_flat, lemma_render_json_text,
    member_grammar, member_line, members_line, msg_malformed, null_grammar, number_chars,
    number_grammar, object_grammar, parse_json, print_json, quoted, spaced, string_grammar, text_is,
    value_grammar, Json, ARRAY, FALSE, INDENT_DEPTH, NULL, NUMBER, OBJECT, STRING, TRUE, VALUE,
};
pub use parser::{
    chr, committed, cont_outcome, fail, failure, is_number_literal, lemma_commitment, many_outcome,
    msg_number, msg_too_deep, msg_unknown_rule, number_state, number_step, or_chain, or_from,
    outcome, parse_fuel, parse_matches, prepend, rule, run_matches, scan_until, sep_outcome,
    string, tree_text, trees_text, unit, until, Cont, Outcome, Parser,
};
pub use pretty::{
    decisions, doc_size, first_difference_widens, flat_text, flatable, lemma_narrower_only_expands,
    lemma_render_keeps_non_blank_text, lemma_wide_render_is_flat, literal, newline, non_blank,
    render, render_seq, spaces, start, text, Doc, DocElem, Layout, MAX_DOC_SIZE,
};
pub use stream::{
    ahead, chars_of, msg_expected, msg_reaches_end, string_of, Failure, ParseError, StrStream,
};
pub use value::{lemma_trees_of_len, tree_of, trees_of, Tree, Value};
