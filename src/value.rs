use vstd::prelude::*;

verus! {

/// A node of the parsed tree.
#[derive(Debug, PartialEq)]
pub enum Value {
    Str(String),
    Int(i64),
    /// A floating-point literal, kept as the text it was written with.
    Float(String),
    List(Vec<Value>),
    /// Entries in the order of each key's first appearance; keys are unique.
    Dict(Vec<(String, Value)>),
    /// Colour space (`rgb` or `hsv`) and the literals of its three components.
    Color(String, String, String, String),
}

/// The mathematical model of a [`Value`].
pub enum Node {
    Str(Seq<char>),
    Int(int),
    Float(Seq<char>),
    List(Seq<Node>),
    Dict(Seq<(Seq<char>, Node)>),
    Color(Seq<char>, Seq<char>, Seq<char>, Seq<char>),
}

/// Why a parser did not produce a result.
#[derive(Debug, Clone, Copy, PartialEq, Eq, Structural)]
pub enum Failure {
    /// The construct is absent here; an enclosing alternation may try the next rule.
    Backtrack,
    /// The input cannot be read at all (an unterminated string, an exponent
    /// without digits); no alternative is tried.
    Abort,
}

/// The model of a value.
pub open spec fn node_of(v: Value) -> Node
    decreases v,
{
    match v {
        Value::Str(t) => Node::Str(t@),
        Value::Int(n) => Node::Int(n as int),
        Value::Float(t) => Node::Float(t@),
        Value::List(items) => Node::List(
            Seq::new(
                items.len() as nat,
                |i: int|
                    if 0 <= i < items.len() {
                        node_of(items[i])
                    } else {
                        Node::Int(0)
                    },
            ),
        ),
        Value::Dict(entries) => Node::Dict(
            Seq::new(
                entries.len() as nat,
                |i: int|
                    if 0 <= i < entries.len() {
                        (entries[i].0@, node_of(entries[i].1))
                    } else {
                        (Seq::empty(), Node::Int(0))
                    },
            ),
        ),
        Value::Color(space, a, b, c) => Node::Color(space@, a@, b@, c@),
    }
}

impl View for Value {
    type V = Node;

    open spec fn view(&self) -> Node {
        node_of(*self)
    }
}

/// The model of a sequence of values.
pub open spec fn nodes_of(items: Seq<Value>) -> Seq<Node> {
    Seq::new(items.len(), |i: int| items[i]@)
}

/// The model of a sequence of map entries.
pub open spec fn entries_of(entries: Seq<(String, Value)>) -> Seq<(Seq<char>, Node)> {
    Seq::new(entries.len(), |i: int| (entries[i].0@, entries[i].1@))
}

pub proof fn lemma_list_view(items: Vec<Value>)
    ensures
        Value::List(items)@ == Node::List(nodes_of(items@)),
{
    let v = Value::List(items);
    assert(v@->List_0 =~= nodes_of(items@));
}

pub proof fn lemma_map_view(entries: Vec<(String, Value)>)
    ensures
        Value::Dict(entries)@ == Node::Dict(entries_of(entries@)),
{
    let v = Value::Dict(entries);
    let ns = v@->Dict_0;
    assert(v@ is Dict);
    assert(ns.len() == entries@.len());
    assert(ns =~= entries_of(entries@));
}

} // verus!
