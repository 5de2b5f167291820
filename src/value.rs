use vstd::prelude::*;

verus! {

/// A configuration tree: objects, arrays, strings, numbers, booleans and null.
///
/// A number is held as its canonical decimal text, which is all the engine
/// ever reads of it. An object is a list of entries whose keys are unique
/// (see `Tree::keys_unique`); their order carries no meaning.
#[derive(Debug, PartialEq)]
pub enum Value {
    Null,
    Bool(bool),
    Number(String),
    String(String),
    Array(Vec<Value>),
    Object(Vec<(String, Value)>),
}

/// The mathematical model of a `Value`.
pub enum Tree {
    Null,
    Bool(bool),
    Number(Seq<char>),
    String(Seq<char>),
    Array(Seq<Tree>),
    Object(Seq<(Seq<char>, Tree)>),
}

impl Tree {
    /// No two entries of an object share a key, at any depth.
    pub open spec fn keys_unique(self) -> bool
        decreases self,
    {
        match self {
            Tree::Array(items) => forall|i: int|
                0 <= i < items.len() ==> (#[trigger] items[i]).keys_unique(),
            Tree::Object(entries) => {
                &&& forall|i: int, j: int|
                    0 <= i < j < entries.len() ==> (#[trigger] entries[i]).0 != (#[trigger] entries[j]).0
                &&& forall|i: int|
                    0 <= i < entries.len() ==> (#[trigger] entries[i]).1.keys_unique()
            },
            _ => true,
        }
    }
}

/// The model of each element of `items`, in order.
pub open spec fn items_view(items: Seq<Value>) -> Seq<Tree>
    decreases items,
{
    if items.len() == 0 {
        Seq::empty()
    } else {
        items_view(items.subrange(0, items.len() - 1)).push(value_view(items[items.len() - 1]))
    }
}

/// The model of each entry of `entries`, in order.
pub open spec fn entries_view(entries: Seq<(String, Value)>) -> Seq<(Seq<char>, Tree)>
    decreases entries,
{
    if entries.len() == 0 {
        Seq::empty()
    } else {
        let last = entries[entries.len() - 1];
        entries_view(entries.subrange(0, entries.len() - 1)).push((last.0@, value_view(last.1)))
    }
}

pub open spec fn value_view(v: Value) -> Tree
    decreases v,
{
    match v {
        Value::Null => Tree::Null,
        Value::Bool(b) => Tree::Bool(b),
        Value::Number(n) => Tree::Number(n@),
        Value::String(s) => Tree::String(s@),
        Value::Array(items) => Tree::Array(items_view(items@)),
        Value::Object(entries) => Tree::Object(entries_view(entries@)),
    }
}

impl View for Value {
    type V = Tree;

    open spec fn view(&self) -> Tree {
        value_view(*self)
    }
}

pub proof fn lemma_items_view(items: Seq<Value>)
    ensures
        items_view(items).len() == items.len(),
        forall|i: int| 0 <= i < items.len() ==> #[trigger] items_view(items)[i] == items[i]@,
    decreases items.len(),
{
    if items.len() > 0 {
        lemma_items_view(items.subrange(0, items.len() - 1));
    }
}

pub proof fn lemma_entries_view(entries: Seq<(String, Value)>)
    ensures
        entries_view(entries).len() == entries.len(),
        forall|i: int|
            0 <= i < entries.len() ==> #[trigger] entries_view(entries)[i] == (
                entries[i].0@,
                entries[i].1@,
            ),
    decreases entries.len(),
{
    if entries.len() > 0 {
        lemma_entries_view(entries.subrange(0, entries.len() - 1));
    }
}

impl Value {
    /// A copy of the whole tree.
    #[verifier::loop_isolation(false)]
    pub fn deep_copy(&self) -> (r: Value)
        ensures
            r@ == self@,
        decreases self,
    {
        match self {
            Value::Null => Value::Null,
            Value::Bool(b) => Value::Bool(*b),
            Value::Number(n) => Value::Number(n.clone()),
            Value::String(s) => Value::String(s.clone()),
            Value::Array(items) => {
                let mut out: Vec<Value> = Vec::new();
                let mut i: usize = 0;
                while i < items.len()
                    invariant
                        i <= items.len(),
                        items_view(out@) == items_view(items@.subrange(0, i as int)),
                    decreases items.len() - i,
                {
                    proof {
                        assert(decreases_to!(*self => items[i as int]));
                    }
                    let c = items[i].deep_copy();
                    proof {
                        assert(out@.push(c).subrange(0, out@.len() as int) =~= out@);
                        assert(items@.subrange(0, i + 1).subrange(0, i as int) =~= items@.subrange(0, i as int));
                    }
                    out.push(c);
                    i = i + 1;
                }
                proof {
                    assert(items@.subrange(0, items.len() as int) =~= items@);
                }
                Value::Array(out)
            },
            Value::Object(entries) => {
                let mut out: Vec<(String, Value)> = Vec::new();
                let mut i: usize = 0;
                while i < entries.len()
                    invariant
                        i <= entries.len(),
                        entries_view(out@) == entries_view(entries@.subrange(0, i as int)),
                    decreases entries.len() - i,
                {
                    let k = entries[i].0.clone();
                    proof {
                        assert(decreases_to!(*self => entries[i as int].1));
                    }
                    let c = entries[i].1.deep_copy();
                    proof {
                        assert(out@.push((k, c)).subrange(0, out@.len() as int) =~= out@);
                        assert(entries@.subrange(0, i + 1).subrange(0, i as int) =~= entries@.subrange(0, i as int));
                    }
                    out.push((k, c));
                    i = i + 1;
                }
                proof {
                    assert(entries@.subrange(0, entries.len() as int) =~= entries@);
                }
                Value::Object(out)
            },
        }
    }
}

} // verus!
