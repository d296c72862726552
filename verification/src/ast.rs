//! The expression tree.
use vstd::prelude::*;
use crate::tokenizer::is_numeral;

verus! {

/// An arithmetic expression. Each node owns its operands; a leaf holds the
/// text of its number.
#[derive(Debug, PartialEq)]
pub enum Node {
    Add(Box<Node>, Box<Node>),
    Subtract(Box<Node>, Box<Node>),
    Multiply(Box<Node>, Box<Node>),
    Divide(Box<Node>, Box<Node>),
    /// The left operand raised to the power of the right one.
    Caret(Box<Node>, Box<Node>),
    Negative(Box<Node>),
    Number(String),
}

/// The mathematical value of a [`Node`]: the same tree, with the text of
/// each leaf as a sequence of characters.
pub enum NodeView {
    Add(Box<NodeView>, Box<NodeView>),
    Subtract(Box<NodeView>, Box<NodeView>),
    Multiply(Box<NodeView>, Box<NodeView>),
    Divide(Box<NodeView>, Box<NodeView>),
    Caret(Box<NodeView>, Box<NodeView>),
    Negative(Box<NodeView>),
    Number(Seq<char>),
}

impl NodeView {
    /// Every leaf holds the text of a number.
    pub open spec fn well_formed(self) -> bool
        decreases self,
    {
        match self {
            NodeView::Add(l, r) => l.well_formed() && r.well_formed(),
            NodeView::Subtract(l, r) => l.well_formed() && r.well_formed(),
            NodeView::Multiply(l, r) => l.well_formed() && r.well_formed(),
            NodeView::Divide(l, r) => l.well_formed() && r.well_formed(),
            NodeView::Caret(l, r) => l.well_formed() && r.well_formed(),
            NodeView::Negative(e) => e.well_formed(),
            NodeView::Number(text) => is_numeral(text),
        }
    }
}

impl Node {
    pub open spec fn view(&self) -> NodeView
        decreases self,
    {
        match self {
            Node::Add(l, r) => NodeView::Add(Box::new(l.view()), Box::new(r.view())),
            Node::Subtract(l, r) => NodeView::Subtract(Box::new(l.view()), Box::new(r.view())),
            Node::Multiply(l, r) => NodeView::Multiply(Box::new(l.view()), Box::new(r.view())),
            Node::Divide(l, r) => NodeView::Divide(Box::new(l.view()), Box::new(r.view())),
            Node::Caret(l, r) => NodeView::Caret(Box::new(l.view()), Box::new(r.view())),
            Node::Negative(e) => NodeView::Negative(Box::new(e.view())),
            Node::Number(text) => NodeView::Number(text@),
        }
    }
}

impl Clone for Node {
    /// A copy of the tree: the same tree again.
    fn clone(&self) -> (copy: Node)
        ensures
            copy@ == self@,
        decreases self,
    {
        match self {
            Node::Add(l, r) => Node::Add(Box::new((&**l).clone()), Box::new((&**r).clone())),
            Node::Subtract(l, r) => Node::Subtract(
                Box::new((&**l).clone()),
                Box::new((&**r).clone()),
            ),
            Node::Multiply(l, r) => Node::Multiply(
                Box::new((&**l).clone()),
                Box::new((&**r).clone()),
            ),
            Node::Divide(l, r) => Node::Divide(Box::new((&**l).clone()), Box::new((&**r).clone())),
            Node::Caret(l, r) => Node::Caret(Box::new((&**l).clone()), Box::new((&**r).clone())),
            Node::Negative(e) => Node::Negative(Box::new((&**e).clone())),
            Node::Number(text) => Node::Number(text.clone()),
        }
    }
}

} // verus!
