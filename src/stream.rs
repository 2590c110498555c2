use vstd::prelude::*;
use vstd::std_specs::iter::IteratorSpec;
use vstd::slice::slice_subrange;
use vstd::string::*;

verus! {

broadcast use {
    vstd::seq::group_seq_axioms,
    vstd::seq_lib::group_seq_properties,
    vstd::std_specs::vec::group_vec_axioms,
};

/// Relies on `String::push`: the character is appended to the string.
#[verifier::external_body]
pub(crate) fn push_char(s: &mut String, c: char)
    ensures
        final(s)@ == old(s)@.push(c),
{
    s.push(c);
}

/// The characters of `s`, in order.
pub fn chars_of(s: &str) -> (r: Vec<char>)
    ensures
        r@ == s@,
{
    broadcast use {axiom_spec_iter, next_postcondition};

    let mut it = s.chars();
    let mut out: Vec<char> = Vec::new();
    loop
        invariant_except_break
            out@ + it.remaining() == s@,
            it.decrease() is Some,
        ensures
            out@ == s@,
        decreases it.decrease()->0,
    {
        match it.next() {
            Some(c) => {
                out.push(c);
            },
            None => {
                break;
            },
        }
    }
    out
}

/// A cursor: a text and an offset into it. Consuming input makes a new
/// cursor; the old one stays usable.
#[derive(Clone, Copy, Debug, PartialEq, Eq)]
pub struct StrStream<'a> {
    body: &'a [char],
    pos: usize,
}

impl<'a> StrStream<'a> {
    /// The whole text.
    pub closed spec fn body(&self) -> Seq<char> {
        self.body@
    }

    /// The offset, in characters.
    pub closed spec fn pos(&self) -> int {
        self.pos as int
    }

    /// The offset lies within the text.
    pub open spec fn wf(&self) -> bool {
        0 <= self.pos() <= self.body().len()
    }

    pub fn new(body: &'a [char]) -> (r: StrStream<'a>)
        ensures
            r.body() == body@,
            r.pos() == 0,
            r.wf(),
    {
        StrStream { body, pos: 0 }
    }

    pub fn position(&self) -> (r: usize)
        ensures
            r == self.pos(),
    {
        self.pos
    }

    pub fn can_advance(&self) -> (r: bool)
        requires
            self.wf(),
        ensures
            r == (self.pos() < self.body().len()),
    {
        self.pos < self.body.len()
    }

    /// The text from the offset on.
    pub fn current(&self) -> (r: &'a [char])
        requires
            self.wf(),
        ensures
            r@ == self.body().skip(self.pos()),
    {
        slice_subrange(self.body, self.pos, self.body.len())
    }

    /// The next `n` characters, or all that are left when fewer remain.
    pub fn take(&self, n: usize) -> (r: &'a [char])
        requires
            self.wf(),
        ensures
            r@ == ahead(self.body(), self.pos(), n as int),
    {
        let left = self.body.len() - self.pos;
        let k = if n < left {
            n
        } else {
            left
        };
        slice_subrange(self.body, self.pos, self.pos + k)
    }

    /// The text from `start` up to the offset.
    pub fn since(&self, start: usize) -> (r: &'a [char])
        requires
            self.wf(),
            start <= self.pos(),
        ensures
            r@ == self.body().subrange(start as int, self.pos()),
    {
        slice_subrange(self.body, start, self.pos)
    }

    /// The character at the offset.
    pub fn peek(&self) -> (r: char)
        requires
            self.wf(),
            self.pos() < self.body().len(),
        ensures
            r == self.body()[self.pos()],
    {
        self.body[self.pos]
    }

    /// The same text, `n` characters further on.
    pub fn advance(self, n: usize) -> (r: StrStream<'a>)
        requires
            self.wf(),
            self.pos() + n <= self.body().len(),
        ensures
            r.body() == self.body(),
            r.pos() == self.pos() + n,
            r.wf(),
    {
        let len = self.body.len();
        assert(self.pos + n <= len);
        StrStream { body: self.body, pos: self.pos + n }
    }
}

/// The next `n` characters of `s` from `pos`, or all that are left when fewer
/// remain.
pub open spec fn ahead(s: Seq<char>, pos: int, n: int) -> Seq<char> {
    s.subrange(pos, if pos + n < s.len() { pos + n } else { s.len() as int })
}

/// A failed parse: where it failed, why, and whether an enclosing choice may
/// still try another alternative.
#[derive(Debug, PartialEq, Eq)]
pub struct ParseError {
    pub retry: bool,
    pub message: String,
    pub pos: usize,
}

/// The mathematical form of a [`ParseError`].
pub struct Failure {
    pub retry: bool,
    pub message: Seq<char>,
    pub pos: int,
}

impl View for ParseError {
    type V = Failure;

    open spec fn view(&self) -> Failure {
        Failure { retry: self.retry, message: self.message@, pos: self.pos as int }
    }
}

pub open spec fn msg_reaches_end() -> Seq<char> {
    "Reaches end."@
}

/// The message for text `found` where `expected` was wanted.
pub open spec fn msg_expected(expected: Seq<char>, found: Seq<char>) -> Seq<char> {
    "Expected `"@ + expected + "` but actual is `"@ + found + "`."@
}

/// A string holding `cs`.
pub fn string_of(cs: &[char]) -> (r: String)
    ensures
        r@ == cs@,
{
    let mut out = String::new();
    let mut i: usize = 0;
    while i < cs.len()
        invariant
            i <= cs.len(),
            out@ == cs@.take(i as int),
        decreases cs.len() - i,
    {
        push_char(&mut out, cs[i]);
        i = i + 1;
    }
    out
}

pub(crate) fn reaches_end_message() -> (r: String)
    ensures
        r@ == msg_reaches_end(),
{
    String::from_str("Reaches end.")
}

pub(crate) fn expected_message(expected: &[char], found: &[char]) -> (r: String)
    ensures
        r@ == msg_expected(expected@, found@),
{
    let mut m = String::from_str("Expected `");
    m.append(string_of(expected).as_str());
    m.append("` but actual is `");
    m.append(string_of(found).as_str());
    m.append("`.");
    m
}

} // verus!
