use vstd::prelude::*;

verus! {

broadcast use {
    vstd::seq::group_seq_axioms,
    vstd::seq_lib::group_seq_properties,
    vstd::std_specs::vec::group_vec_axioms,
};

/// What a parser yields on success.
#[derive(Debug, PartialEq, Eq)]
pub enum Value {
    /// Nothing of interest.
    Unit,
    /// One character that was matched.
    Char(char),
    /// A run of text that was matched or scanned.
    Text(String),
    /// The values of two parsers run in sequence.
    Pair(Box<Value>, Box<Value>),
    /// The values of a repeated parser, in input order.
    List(Vec<Value>),
    /// The value of an optional parser, if it matched.
    Opt(Option<Box<Value>>),
    /// A value marked by a grammar with a number of its choosing.
    Tag(u64, Box<Value>),
}

/// The mathematical form of a [`Value`].
pub enum Tree {
    Unit,
    Char(char),
    Text(Seq<char>),
    Pair(Box<Tree>, Box<Tree>),
    List(Seq<Tree>),
    Opt(Option<Box<Tree>>),
    Tag(u64, Box<Tree>),
}

pub open spec fn tree_of(v: Value) -> Tree
    decreases v,
{
    match v {
        Value::Unit => Tree::Unit,
        Value::Char(c) => Tree::Char(c),
        Value::Text(s) => Tree::Text(s@),
        Value::Pair(a, b) => Tree::Pair(Box::new(tree_of(*a)), Box::new(tree_of(*b))),
        Value::List(vs) => Tree::List(trees_of(vs@)),
        Value::Opt(o) => match o {
            Some(x) => Tree::Opt(Some(Box::new(tree_of(*x)))),
            None => Tree::Opt(None),
        },
        Value::Tag(t, x) => Tree::Tag(t, Box::new(tree_of(*x))),
    }
}

pub open spec fn trees_of(vs: Seq<Value>) -> Seq<Tree>
    decreases vs,
{
    if vs.len() == 0 {
        seq![]
    } else {
        trees_of(vs.drop_last()).push(tree_of(vs.last()))
    }
}

impl View for Value {
    type V = Tree;

    open spec fn view(&self) -> Tree {
        tree_of(*self)
    }
}

pub proof fn lemma_trees_of_len(vs: Seq<Value>)
    ensures
        trees_of(vs).len() == vs.len(),
        forall|i| 0 <= i < vs.len() ==> #[trigger] trees_of(vs)[i] == tree_of(vs[i]),
    decreases vs.len(),
{
    if vs.len() > 0 {
        lemma_trees_of_len(vs.drop_last());
    }
}

pub proof fn lemma_trees_of_push(vs: Seq<Value>, v: Value)
    ensures
        trees_of(vs.push(v)) == trees_of(vs).push(tree_of(v)),
{
    assert(vs.push(v).drop_last() == vs);
}

impl Value {
    /// A copy of the value.
    pub fn copy(&self) -> (r: Value)
        ensures
            r@ == self@,
        decreases self,
    {
        match self {
            Value::Unit => Value::Unit,
            Value::Char(c) => Value::Char(*c),
            Value::Text(s) => Value::Text(s.clone()),
            Value::Pair(a, b) => Value::Pair(Box::new(a.copy()), Box::new(b.copy())),
            Value::List(vs) => {
                let mut out: Vec<Value> = Vec::new();
                let mut i: usize = 0;
                while i < vs.len()
                    invariant
                        i <= vs.len(),
                        *self == Value::List(*vs),
                        trees_of(out@) == trees_of(vs@.take(i as int)),
                    decreases vs.len() - i,
                {
                    proof {
                        assert(decreases_to!(*self => (*self)->List_0));
                        assert(decreases_to!(*vs => vs[i as int]));
                        assert(decreases_to!(*self => vs[i as int]));
                    }
                    let x = vs[i].copy();
                    proof {
                        lemma_trees_of_push(out@, x);
                        assert(vs@.take(i + 1).drop_last() == vs@.take(i as int));
                    }
                    out.push(x);
                    i = i + 1;
                }
                assert(vs@.take(vs.len() as int) == vs@);
                Value::List(out)
            },
            Value::Opt(o) => match o {
                Some(x) => Value::Opt(Some(Box::new(x.copy()))),
                None => Value::Opt(None),
            },
            Value::Tag(t, x) => Value::Tag(*t, Box::new(x.copy())),
        }
    }
}

} // verus!
