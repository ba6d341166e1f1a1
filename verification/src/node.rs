//! The document tree that the codec reads and writes.

use vstd::prelude::*;

verus! {

/// A node of a structured document: a scalar, a list, or a record of keyed
/// nodes in the order in which they were written.
#[derive(Debug, PartialEq, Eq)]
pub enum Node {
    /// The absent value.
    Null,
    /// A truth value.
    Bool(bool),
    /// A number, kept in its written form.
    Number(String),
    /// A string.
    Str(String),
    /// A list of nodes.
    List(Vec<Node>),
    /// A record: keys with their nodes, in document order.
    Record(Vec<(String, Node)>),
}

/// The mathematical value of a [`Node`].
pub enum NodeView {
    Null,
    Bool(bool),
    Number(Seq<char>),
    Str(Seq<char>),
    List(Seq<NodeView>),
    Record(Seq<(Seq<char>, NodeView)>),
}

/// The value of a node: each string by its characters, each list and
/// record by the values of its members.
pub open spec fn node_view(node: Node) -> NodeView
    decreases node,
{
    match node {
        Node::Null => NodeView::Null,
        Node::Bool(b) => NodeView::Bool(b),
        Node::Number(s) => NodeView::Number(s@),
        Node::Str(s) => NodeView::Str(s@),
        Node::List(items) => NodeView::List(
            Seq::new(
                items@.len(),
                |i: int|
                    if 0 <= i < items@.len() {
                        node_view(items@[i])
                    } else {
                        NodeView::Null
                    },
            ),
        ),
        Node::Record(entries) => NodeView::Record(
            Seq::new(
                entries@.len(),
                |i: int|
                    if 0 <= i < entries@.len() {
                        (entries@[i].0@, node_view(entries@[i].1))
                    } else {
                        (Seq::empty(), NodeView::Null)
                    },
            ),
        ),
    }
}

impl View for Node {
    type V = NodeView;

    open spec fn view(&self) -> NodeView {
        node_view(*self)
    }
}

/// The entries of a record as mathematical values.
pub open spec fn entries_view(entries: Seq<(String, Node)>) -> Seq<(Seq<char>, NodeView)> {
    Seq::new(entries.len(), |i: int| (entries[i].0@, entries[i].1@))
}

/// The value of a record node is made of the values of its entries.
pub proof fn lemma_record_view(entries: Vec<(String, Node)>)
    ensures
        Node::Record(entries)@ == NodeView::Record(entries_view(entries@)),
{
    assert(Node::Record(entries)@->Record_0 =~= entries_view(entries@));
}

} // verus!
