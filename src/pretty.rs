use vstd::prelude::*;

verus! {

broadcast use {
    vstd::seq::group_seq_axioms,
    vstd::seq_lib::group_seq_properties,
    vstd::std_specs::vec::group_vec_axioms,
};

/// One node of a document.
#[derive(Debug, PartialEq, Eq)]
pub enum DocElem {
    /// Fixed text.
    Literal(&'static str),
    /// Owned text.
    Text(String),
    /// A line break, after which the indent changes by the given amount.
    Newline(i32),
    /// A group, laid out on one line when it fits and expanded otherwise.
    Flatable(Vec<DocElem>),
}

/// The text of a sequence of nodes when every group is laid out on one line
/// and every line break becomes a single space.
pub open spec fn flat_text(ds: Seq<DocElem>) -> Seq<char>
    decreases ds,
{
    if ds.len() == 0 {
        seq![]
    } else {
        flat_text(ds.drop_last()) + match ds.last() {
            DocElem::Literal(s) => s@,
            DocElem::Text(s) => s@,
            DocElem::Newline(_) => seq![' '],
            DocElem::Flatable(v) => flat_text(v@),
        }
    }
}

/// A bound on every quantity the renderer tracks: text lengths, line breaks
/// and indent changes, counted over all nested groups.
pub open spec fn doc_size(ds: Seq<DocElem>) -> nat
    decreases ds,
{
    if ds.len() == 0 {
        0
    } else {
        doc_size(ds.drop_last()) + match ds.last() {
            DocElem::Literal(s) => s@.len(),
            DocElem::Text(s) => s@.len(),
            DocElem::Newline(d) => (if d < 0 { -d } else { d as int }) as nat + 1,
            DocElem::Flatable(v) => doc_size(v@) + 1,
        }
    }
}

/// The largest document size the renderer accepts; its arithmetic stays
/// within `i64` below it.
pub const MAX_DOC_SIZE: i64 = 0x1000_0000_0000_0000;

proof fn lemma_flat_text_len(ds: Seq<DocElem>)
    ensures
        flat_text(ds).len() <= doc_size(ds),
    decreases ds,
{
    if ds.len() > 0 {
        lemma_flat_text_len(ds.drop_last());
        if let DocElem::Flatable(v) = ds.last() {
            lemma_flat_text_len(v@);
        }
    }
}

proof fn lemma_size_prefix(ds: Seq<DocElem>, i: int)
    requires
        0 <= i <= ds.len(),
    ensures
        doc_size(ds.take(i)) <= doc_size(ds),
    decreases ds.len() - i,
{
    if i < ds.len() {
        lemma_size_prefix(ds, i + 1);
        assert(ds.take(i + 1).drop_last() == ds.take(i));
    } else {
        assert(ds.take(i) == ds);
    }
}

proof fn lemma_size_last(ds: Seq<DocElem>, i: int)
    requires
        0 <= i < ds.len(),
    ensures
        doc_size(ds.take(i)) + (match ds[i] {
            DocElem::Literal(s) => s@.len(),
            DocElem::Text(s) => s@.len(),
            DocElem::Newline(d) => (if d < 0 { -d } else { d as int }) as nat + 1,
            DocElem::Flatable(v) => doc_size(v@) + 1,
        }) <= doc_size(ds),
{
    lemma_size_prefix(ds, i + 1);
    assert(ds.take(i + 1).drop_last() == ds.take(i));
}

fn flat_doc_width(ds: &Vec<DocElem>) -> (r: i64)
    requires
        doc_size(ds@) <= MAX_DOC_SIZE,
    ensures
        r == flat_text(ds@).len(),
    decreases ds,
{
    let mut sum: i64 = 0;
    let mut i: usize = 0;
    while i < ds.len()
        invariant
            i <= ds.len(),
            doc_size(ds@) <= MAX_DOC_SIZE,
            sum == flat_text(ds@.take(i as int)).len(),
        decreases ds.len() - i,
    {
        assert(ds@.take(i + 1).drop_last() == ds@.take(i as int));
        proof {
            lemma_size_last(ds@, i as int);
            lemma_flat_text_len(ds@.take(i as int));
        }
        match &ds[i] {
            DocElem::Literal(s) => {
                sum = sum + s.unicode_len() as i64;
            },
            DocElem::Text(s) => {
                sum = sum + s.as_str().unicode_len() as i64;
            },
            DocElem::Newline(_) => {
                sum = sum + 1;
            },
            DocElem::Flatable(v) => {
                proof {
                    lemma_flat_text_len(v@);
                }
                sum = sum + flat_doc_width(v);
            },
        }
        i = i + 1;
    }
    assert(ds@.take(ds.len() as int) == ds@);
    sum
}

fn flatten_walk(ds: &Vec<DocElem>, ret: &mut String)
    ensures
        final(ret)@ == old(ret)@ + flat_text(ds@),
    decreases ds,
{
    let ghost start = ret@;
    let mut i: usize = 0;
    while i < ds.len()
        invariant
            i <= ds.len(),
            ret@ == start + flat_text(ds@.take(i as int)),
        decreases ds.len() - i,
    {
        assert(ds@.take(i + 1).drop_last() == ds@.take(i as int));
        match &ds[i] {
            DocElem::Literal(s) => ret.append(s),
            DocElem::Text(s) => ret.append(s.as_str()),
            DocElem::Newline(_) => {
                proof {
                    reveal_strlit(" ");
                }
                ret.append(" ");
            },
            DocElem::Flatable(v) => flatten_walk(v, ret),
        }
        i = i + 1;
    }
    assert(ds@.take(ds.len() as int) == ds@);
}

fn flatten_print(ds: &Vec<DocElem>) -> (r: String)
    ensures
        r@ == flat_text(ds@),
{
    let mut ret = String::new();
    flatten_walk(ds, &mut ret);
    ret
}

/// Where the renderer stands: the width left on the current line, the
/// current indent, and the text so far.
pub struct Layout {
    pub rest: int,
    pub indent: int,
    pub out: Seq<char>,
}

/// `n` spaces; none when `n` is not positive.
pub open spec fn spaces(n: int) -> Seq<char> {
    Seq::new(if n > 0 { n as nat } else { 0 }, |i: int| ' ')
}

/// The state after rendering `ds` at `width` from `st`: text is emitted and
/// charged to the line; a line break moves the indent and starts a new line;
/// a group that fits in what is left of the line is laid out flat, otherwise
/// its members are rendered in turn.
pub open spec fn render_seq(ds: Seq<DocElem>, width: int, st: Layout) -> Layout
    decreases ds,
{
    if ds.len() == 0 {
        st
    } else {
        let before = render_seq(ds.drop_last(), width, st);
        match ds.last() {
            DocElem::Literal(s) => Layout {
                rest: before.rest - s@.len(),
                indent: before.indent,
                out: before.out + s@,
            },
            DocElem::Text(s) => Layout {
                rest: before.rest - s@.len(),
                indent: before.indent,
                out: before.out + s@,
            },
            DocElem::Newline(d) => Layout {
                rest: width - (before.indent + d),
                indent: before.indent + d,
                out: before.out + seq!['\n'] + spaces(before.indent + d),
            },
            DocElem::Flatable(v) => if flat_text(v@).len() <= before.rest {
                Layout {
                    rest: before.rest - flat_text(v@).len(),
                    indent: before.indent,
                    out: before.out + flat_text(v@),
                }
            } else {
                render_seq(v@, width, before)
            },
        }
    }
}

/// The text of `ds` rendered at `width`, from an empty first line at indent 0.
pub open spec fn render(ds: Seq<DocElem>, width: int) -> Seq<char> {
    render_seq(ds, width, Layout { rest: width, indent: 0, out: seq![] }).out
}

spec fn abs(x: int) -> int {
    if x < 0 { -x } else { x }
}

spec fn within(width: int, rest: int, indent: int, g: int) -> bool {
    &&& abs(width) <= 0x8000_0000
    &&& abs(indent) <= g
    &&& abs(rest) <= 0x1_0000_0000 + 2 * g
}

fn push_spaces(ret: &mut String, n: i64)
    ensures
        final(ret)@ == old(ret)@ + spaces(n as int),
{
    let ghost start = ret@;
    let mut k: i64 = 0;
    while k < n
        invariant
            0 <= k,
            k <= n || k == 0,
            ret@ == start + spaces(k as int),
        decreases n - k,
    {
        proof {
            reveal_strlit(" ");
        }
        ret.append(" ");
        k = k + 1;
        assert(ret@ == start + spaces(k as int));
    }
    assert(spaces(k as int) == spaces(n as int));
}

fn pretty_walk(
    ds: &Vec<DocElem>,
    width: i64,
    rest: &mut i64,
    indent: &mut i64,
    ret: &mut String,
    Ghost(g): Ghost<int>,
)
    requires
        within(width as int, *old(rest) as int, *old(indent) as int, g),
        0 <= g,
        g + doc_size(ds@) <= MAX_DOC_SIZE,
    ensures
        within(width as int, *final(rest) as int, *final(indent) as int, g + doc_size(ds@)),
        ({
            let f = render_seq(
                ds@,
                width as int,
                Layout { rest: *old(rest) as int, indent: *old(indent) as int, out: old(ret)@ },
            );
            &&& *final(rest) == f.rest
            &&& *final(indent) == f.indent
            &&& final(ret)@ == f.out
        }),
    decreases ds,
{
    let ghost st0 = Layout { rest: *rest as int, indent: *indent as int, out: ret@ };
    let mut i: usize = 0;
    while i < ds.len()
        invariant
            i <= ds.len(),
            0 <= g,
            g + doc_size(ds@) <= MAX_DOC_SIZE,
            within(width as int, *rest as int, *indent as int, g + doc_size(ds@.take(i as int))),
            ({
                let f = render_seq(ds@.take(i as int), width as int, st0);
                &&& *rest == f.rest
                &&& *indent == f.indent
                &&& ret@ == f.out
            }),
        decreases ds.len() - i,
    {
        assert(ds@.take(i + 1).drop_last() == ds@.take(i as int));
        proof {
            lemma_size_last(ds@, i as int);
            lemma_size_prefix(ds@, i as int + 1);
        }
        let ghost gi = g + doc_size(ds@.take(i as int));
        match &ds[i] {
            DocElem::Literal(s) => {
                *rest = *rest - s.unicode_len() as i64;
                ret.append(s);
            },
            DocElem::Text(s) => {
                *rest = *rest - s.as_str().unicode_len() as i64;
                ret.append(s.as_str());
            },
            DocElem::Newline(d) => {
                *indent = *indent + *d as i64;
                *rest = width - *indent;
                proof {
                    reveal_strlit("\n");
                }
                ret.append("\n");
                push_spaces(ret, *indent);
            },
            DocElem::Flatable(v) => {
                proof {
                    lemma_flat_text_len(v@);
                }
                if flat_doc_width(v) <= *rest {
                    let fstr = flatten_print(v);
                    ret.append(fstr.as_str());
                    *rest = *rest - flat_doc_width(v);
                } else {
                    pretty_walk(v, width, rest, indent, ret, Ghost(gi + 1));
                }
            },
        }
        i = i + 1;
    }
    assert(ds@.take(ds.len() as int) == ds@);
}

/// The size of `ds` when it is at most `limit`.
fn size_within(ds: &Vec<DocElem>, limit: i64) -> (r: Option<i64>)
    requires
        0 <= limit <= MAX_DOC_SIZE,
    ensures
        match r {
            Some(n) => n == doc_size(ds@) && n <= limit,
            None => doc_size(ds@) > limit,
        },
    decreases ds,
{
    let mut sum: i64 = 0;
    let mut i: usize = 0;
    while i < ds.len()
        invariant
            i <= ds.len(),
            0 <= limit <= MAX_DOC_SIZE,
            sum == doc_size(ds@.take(i as int)),
            sum <= limit,
        decreases ds.len() - i,
    {
        assert(ds@.take(i + 1).drop_last() == ds@.take(i as int));
        proof {
            lemma_size_prefix(ds@, i as int + 1);
        }
        let step: i64 = match &ds[i] {
            DocElem::Literal(s) => {
                let n = s.unicode_len();
                if n as u64 > (limit - sum) as u64 {
                    return None;
                }
                n as i64
            },
            DocElem::Text(s) => {
                let n = s.as_str().unicode_len();
                if n as u64 > (limit - sum) as u64 {
                    return None;
                }
                n as i64
            },
            DocElem::Newline(d) => {
                let a: i64 = if *d < 0 {
                    -(*d as i64)
                } else {
                    *d as i64
                };
                a + 1
            },
            DocElem::Flatable(v) => {
                if sum == limit {
                    return None;
                }
                match size_within(v, limit - sum - 1) {
                    Some(n) => n + 1,
                    None => {
                        return None;
                    },
                }
            },
        };
        if step > limit - sum {
            return None;
        }
        sum = sum + step;
        i = i + 1;
    }
    assert(ds@.take(ds.len() as int) == ds@);
    Some(sum)
}

/// A document: a sequence of nodes rendered in turn. The sequence itself is
/// not a group.
#[derive(Debug, PartialEq, Eq)]
pub struct Doc(Vec<DocElem>);

impl View for Doc {
    type V = Seq<DocElem>;

    closed spec fn view(&self) -> Seq<DocElem> {
        self.0@
    }
}

impl Doc {
    pub fn new(x: Vec<DocElem>) -> (r: Doc)
        ensures
            r@ == x@,
    {
        Doc(x)
    }

    /// The document is small enough to render: its size is at most
    /// `MAX_DOC_SIZE`.
    pub fn fits_limits(&self) -> (r: bool)
        ensures
            r == (doc_size(self@) <= MAX_DOC_SIZE),
    {
        match size_within(&self.0, MAX_DOC_SIZE) {
            Some(_) => true,
            None => false,
        }
    }

    /// Renders the document at `width`.
    pub fn pretty(&self, width: i32) -> (r: String)
        requires
            doc_size(self@) <= MAX_DOC_SIZE,
        ensures
            r@ == render(self@, width as int),
    {
        let mut ret = String::new();
        let mut rest: i64 = width as i64;
        let mut indent: i64 = 0;
        pretty_walk(&self.0, width as i64, &mut rest, &mut indent, &mut ret, Ghost(0));
        ret
    }
}

pub fn literal(s: &'static str) -> (r: DocElem)
    ensures
        r == DocElem::Literal(s),
{
    DocElem::Literal(s)
}

pub fn text(s: String) -> (r: DocElem)
    ensures
        r == DocElem::Text(s),
{
    DocElem::Text(s)
}

pub fn newline(indent: i32) -> (r: DocElem)
    ensures
        r == DocElem::Newline(indent),
{
    DocElem::Newline(indent)
}

pub fn flatable(ds: Vec<DocElem>) -> (r: DocElem)
    ensures
        r == DocElem::Flatable(ds),
{
    DocElem::Flatable(ds)
}

proof fn lemma_wide_render_seq(ds: Seq<DocElem>, width: int, st: Layout)
    requires
        forall|i| 0 <= i < ds.len() ==> !(#[trigger] ds[i] is Newline),
        flat_text(ds).len() <= st.rest,
    ensures
        render_seq(ds, width, st) == (Layout {
            rest: st.rest - flat_text(ds).len(),
            indent: st.indent,
            out: st.out + flat_text(ds),
        }),
    decreases ds,
{
    if ds.len() == 0 {
        assert(st.out + flat_text(ds) == st.out);
    } else {
        let init = ds.drop_last();
        assert forall|i| 0 <= i < init.len() implies !(#[trigger] init[i] is Newline) by {
            assert(init[i] == ds[i]);
        }
        assert(!(ds[ds.len() - 1] is Newline));
        lemma_wide_render_seq(init, width, st);
        let tail = match ds.last() {
            DocElem::Literal(s) => s@,
            DocElem::Text(s) => s@,
            DocElem::Newline(_) => seq![' '],
            DocElem::Flatable(v) => flat_text(v@),
        };
        assert(st.out + flat_text(init) + tail == st.out + flat_text(ds));
    }
}

/// Flattening at a wide line: a document whose line breaks all sit inside
/// groups renders as its flat text at every width that holds that text.
pub proof fn lemma_wide_render_is_flat(ds: Seq<DocElem>, width: int)
    requires
        forall|i| 0 <= i < ds.len() ==> !(#[trigger] ds[i] is Newline),
        flat_text(ds).len() <= width,
    ensures
        render(ds, width) == flat_text(ds),
{
    lemma_wide_render_seq(ds, width, Layout { rest: width, indent: 0, out: seq![] });
    assert(seq![] + flat_text(ds) == flat_text(ds));
}

/// The fit decisions made while rendering `ds` at `width` from `st`, in the
/// order they are made: `true` for a group laid out flat, `false` for one
/// expanded (whose own members' decisions follow).
pub open spec fn decisions(ds: Seq<DocElem>, width: int, st: Layout) -> Seq<bool>
    decreases ds,
{
    if ds.len() == 0 {
        seq![]
    } else {
        let before = render_seq(ds.drop_last(), width, st);
        decisions(ds.drop_last(), width, st) + match ds.last() {
            DocElem::Flatable(v) => if flat_text(v@).len() <= before.rest {
                seq![true]
            } else {
                seq![false] + decisions(v@, width, before)
            },
            _ => seq![],
        }
    }
}

/// The state a rendering at `width` starts from.
pub open spec fn start(width: int) -> Layout {
    Layout { rest: width, indent: 0, out: seq![] }
}

/// At the first place where `t1` and `t2` differ, `t1` expands and `t2`
/// lays flat.
pub open spec fn first_difference_widens(t1: Seq<bool>, t2: Seq<bool>) -> bool {
    exists|k: int|
        0 <= k < t1.len() && k < t2.len() && #[trigger] t1.take(k) == t2.take(k) && !t1[k] && t2[k]
}

proof fn lemma_widens_extends(t1: Seq<bool>, t2: Seq<bool>, x1: Seq<bool>, x2: Seq<bool>)
    requires
        first_difference_widens(t1, t2),
    ensures
        first_difference_widens(t1 + x1, t2 + x2),
{
    let k = choose|k: int|
        0 <= k < t1.len() && k < t2.len() && #[trigger] t1.take(k) == t2.take(k) && !t1[k] && t2[k];
    assert((t1 + x1).take(k) == t1.take(k));
    assert((t2 + x2).take(k) == t2.take(k));
}

proof fn lemma_render_widths(ds: Seq<DocElem>, w1: int, w2: int, s1: Layout, s2: Layout)
    requires
        w1 <= w2,
        s1.indent == s2.indent,
        s2.rest - s1.rest == w2 - w1,
    ensures
        ({
            let r1 = render_seq(ds, w1, s1);
            let r2 = render_seq(ds, w2, s2);
            let t1 = decisions(ds, w1, s1);
            let t2 = decisions(ds, w2, s2);
            (t1 == t2 && r1.indent == r2.indent && r2.rest - r1.rest == w2 - w1)
                || first_difference_widens(t1, t2)
        }),
    decreases ds,
{
    if ds.len() > 0 {
        let init = ds.drop_last();
        lemma_render_widths(init, w1, w2, s1, s2);
        let b1 = render_seq(init, w1, s1);
        let b2 = render_seq(init, w2, s2);
        let d1 = decisions(init, w1, s1);
        let d2 = decisions(init, w2, s2);
        let t1 = decisions(ds, w1, s1);
        let t2 = decisions(ds, w2, s2);
        if first_difference_widens(d1, d2) {
            let x1 = t1.skip(d1.len() as int);
            let x2 = t2.skip(d2.len() as int);
            assert(t1 == d1 + x1);
            assert(t2 == d2 + x2);
            lemma_widens_extends(d1, d2, x1, x2);
        } else {
            match ds.last() {
                DocElem::Flatable(v) => {
                    let fw = flat_text(v@).len();
                    if fw <= b1.rest {
                        assert(t1 == t2);
                    } else if fw <= b2.rest {
                        assert(t1 == d1 + (seq![false] + decisions(v@, w1, b1)));
                        assert(t2 == d1 + seq![true]);
                        let k = d1.len() as int;
                        assert(t1.take(k) == d1);
                        assert(t2.take(k) == d1);
                        assert(t1[k] == false);
                        assert(t2[k] == true);
                    } else {
                        lemma_render_widths(v@, w1, w2, b1, b2);
                        let e1 = decisions(v@, w1, b1);
                        let e2 = decisions(v@, w2, b2);
                        assert(t1 == d1 + (seq![false] + e1));
                        assert(t2 == d1 + (seq![false] + e2));
                        if first_difference_widens(e1, e2) {
                            let k = choose|k: int|
                                0 <= k < e1.len() && k < e2.len() && #[trigger] e1.take(k)
                                    == e2.take(k) && !e1[k] && e2[k];
                            let k2 = d1.len() + 1 + k;
                            assert(t1.take(k2) == d1 + (seq![false] + e1.take(k)));
                            assert(t2.take(k2) == d1 + (seq![false] + e2.take(k)));
                            assert(t1[k2] == e1[k]);
                            assert(t2[k2] == e2[k]);
                        }
                    }
                },
                _ => {
                    assert(t1 == d1);
                    assert(t2 == d2);
                },
            }
        }
    }
}

/// Groups are decided outer first, and a narrower width can only expand
/// them: rendering at `w1 <= w2`, the first group on which the two
/// renderings decide differently is expanded at `w1` and laid out flat at
/// `w2`; every decision before it is the same.
pub proof fn lemma_narrower_only_expands(ds: Seq<DocElem>, w1: int, w2: int)
    requires
        w1 <= w2,
    ensures
        ({
            let t1 = decisions(ds, w1, start(w1));
            let t2 = decisions(ds, w2, start(w2));
            forall|k: int|
                0 <= k < t1.len() && k < t2.len() && #[trigger] t1.take(k) == t2.take(k) ==> (t1[k]
                    ==> t2[k])
        }),
{
    let t1 = decisions(ds, w1, start(w1));
    let t2 = decisions(ds, w2, start(w2));
    lemma_render_widths(ds, w1, w2, start(w1), start(w2));
    if first_difference_widens(t1, t2) {
        let k0 = choose|k: int|
            0 <= k < t1.len() && k < t2.len() && #[trigger] t1.take(k) == t2.take(k) && !t1[k] && t2[k];
        assert forall|k: int|
            0 <= k < t1.len() && k < t2.len() && #[trigger] t1.take(k) == t2.take(k) implies (t1[k]
                ==> t2[k]) by {
            if k > k0 {
                assert(t1.take(k)[k0] == t2.take(k)[k0]);
            } else if k < k0 {
                assert(t1.take(k0)[k] == t2.take(k0)[k]);
            }
        }
    }
}

/// `s` without its spaces and line breaks.
pub open spec fn non_blank(s: Seq<char>) -> Seq<char>
    decreases s.len(),
{
    if s.len() == 0 {
        seq![]
    } else {
        non_blank(s.drop_last()) + if s.last() == ' ' || s.last() == '\n' {
            Seq::<char>::empty()
        } else {
            seq![s.last()]
        }
    }
}

proof fn lemma_non_blank_concat(a: Seq<char>, b: Seq<char>)
    ensures
        non_blank(a + b) == non_blank(a) + non_blank(b),
    decreases b.len(),
{
    if b.len() == 0 {
        assert(a + b == a);
        assert(non_blank(a) + non_blank(b) == non_blank(a));
    } else {
        lemma_non_blank_concat(a, b.drop_last());
        assert((a + b).drop_last() == a + b.drop_last());
        assert((a + b).last() == b.last());
    }
}

proof fn lemma_non_blank_spaces(n: int)
    ensures
        non_blank(spaces(n)) == Seq::<char>::empty(),
    decreases if n > 0 { n } else { 0 },
{
    if n > 0 {
        lemma_non_blank_spaces(n - 1);
        assert(spaces(n).drop_last() == spaces(n - 1));
    } else {
        assert(spaces(n) == Seq::<char>::empty());
    }
}

proof fn lemma_render_seq_non_blank(ds: Seq<DocElem>, width: int, st: Layout)
    ensures
        non_blank(render_seq(ds, width, st).out) == non_blank(st.out) + non_blank(flat_text(ds)),
    decreases ds,
{
    if ds.len() == 0 {
        assert(non_blank(flat_text(ds)) == Seq::<char>::empty());
        assert(non_blank(st.out) + Seq::<char>::empty() == non_blank(st.out));
    } else {
        let init = ds.drop_last();
        lemma_render_seq_non_blank(init, width, st);
        let before = render_seq(init, width, st);
        let tail = match ds.last() {
            DocElem::Literal(s) => s@,
            DocElem::Text(s) => s@,
            DocElem::Newline(_) => seq![' '],
            DocElem::Flatable(v) => flat_text(v@),
        };
        lemma_non_blank_concat(flat_text(init), tail);
        match ds.last() {
            DocElem::Newline(d) => {
                let ind = before.indent + d;
                lemma_non_blank_concat(before.out + seq!['\n'], spaces(ind));
                lemma_non_blank_concat(before.out, seq!['\n']);
                lemma_non_blank_spaces(ind);
                assert(non_blank(seq!['\n']) == Seq::<char>::empty()) by {
                    assert(seq!['\n'].drop_last() == Seq::<char>::empty());
                }
                assert(non_blank(seq![' ']) == Seq::<char>::empty()) by {
                    assert(seq![' '].drop_last() == Seq::<char>::empty());
                }
            },
            DocElem::Flatable(v) => {
                if flat_text(v@).len() <= before.rest {
                    lemma_non_blank_concat(before.out, tail);
                } else {
                    lemma_render_seq_non_blank(v@, width, before);
                }
            },
            _ => {
                lemma_non_blank_concat(before.out, tail);
            },
        }
    }
}

/// Rendering changes only blanks: with spaces and line breaks removed, the
/// text of a document at any width is its flat text.
pub proof fn lemma_render_keeps_non_blank_text(ds: Seq<DocElem>, width: int)
    ensures
        non_blank(render(ds, width)) == non_blank(flat_text(ds)),
{
    lemma_render_seq_non_blank(ds, width, start(width));
    assert(non_blank(Seq::<char>::empty()) == Seq::<char>::empty());
    assert(Seq::<char>::empty() + non_blank(flat_text(ds)) == non_blank(flat_text(ds)));
}

} // verus!
