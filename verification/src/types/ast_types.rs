use vstd::prelude::*;
use crate::types::token_types::{CharClassType, CharSetType};

verus! {

/// A node of the syntax tree of a pattern.
#[derive(Debug, PartialEq)]
pub enum NodeAST {
    Literal(char),
    CharacterClass(CharClassType),
    CharacterSet(CharSetType, Vec<CharClassType>),
    WordBoundary,
    NonWordBoundary,
    Any,
    AnchorStart(Box<NodeAST>),
    AnchorEnd(Box<NodeAST>),
    Group(Box<NodeAST>),
    Quantifier(Box<NodeAST>, QuantifierType),
    Concatenation(Box<NodeAST>, Box<NodeAST>),
    Alternation(Box<NodeAST>, Box<NodeAST>),
}

/// How often the operand of a quantifier may repeat.
#[derive(Debug, PartialEq, Eq, Structural)]
pub enum QuantifierType {
    ZeroOrMore,  // *
    OneOrMore,  // +
    ZeroOrOne,  // ?
    Repetition(usize, Option<usize>),  // {m, n}
}

/// The value of a syntax tree node, with the members of a set as a sequence.
pub enum NodeView {
    Literal(char),
    CharacterClass(CharClassType),
    CharacterSet(CharSetType, Seq<CharClassType>),
    WordBoundary,
    NonWordBoundary,
    Any,
    AnchorStart(Box<NodeView>),
    AnchorEnd(Box<NodeView>),
    Group(Box<NodeView>),
    Quantifier(Box<NodeView>, QuantifierType),
    Concatenation(Box<NodeView>, Box<NodeView>),
    Alternation(Box<NodeView>, Box<NodeView>),
}

impl View for NodeAST {
    type V = NodeView;

    open spec fn view(&self) -> NodeView
        decreases self,
    {
        match self {
            NodeAST::Literal(c) => NodeView::Literal(*c),
            NodeAST::CharacterClass(c) => NodeView::CharacterClass(*c),
            NodeAST::CharacterSet(t, v) => NodeView::CharacterSet(*t, v@),
            NodeAST::WordBoundary => NodeView::WordBoundary,
            NodeAST::NonWordBoundary => NodeView::NonWordBoundary,
            NodeAST::Any => NodeView::Any,
            NodeAST::AnchorStart(b) => NodeView::AnchorStart(Box::new((**b).view())),
            NodeAST::AnchorEnd(b) => NodeView::AnchorEnd(Box::new((**b).view())),
            NodeAST::Group(b) => NodeView::Group(Box::new((**b).view())),
            NodeAST::Quantifier(b, q) => NodeView::Quantifier(Box::new((**b).view()), *q),
            NodeAST::Concatenation(a, b) => NodeView::Concatenation(
                Box::new((**a).view()),
                Box::new((**b).view()),
            ),
            NodeAST::Alternation(a, b) => NodeView::Alternation(
                Box::new((**a).view()),
                Box::new((**b).view()),
            ),
        }
    }
}

} // verus!
