//! Nodes of the postfix expression output.
use vstd::prelude::*;
use crate::token::{Token, TokenView};

verus! {

/// The kind of a node; every node of a postfix sequence wraps one token.
#[derive(Debug, Clone, Copy, PartialEq, Eq)]
pub enum NodeType {
    Token,
}

/// One entry of a postfix sequence: a token, value or operator.
#[derive(Debug, Clone, PartialEq)]
pub struct Node {
    pub data: Token,
    pub node_type: NodeType,
}

impl View for Node {
    type V = TokenView;

    open spec fn view(&self) -> TokenView {
        self.data@
    }
}

impl Node {
    pub fn from(token: Token) -> (r: Node)
        ensures
            r.data == token,
            r.node_type == NodeType::Token,
    {
        Node { data: token, node_type: NodeType::Token }
    }
}

/// The tokens that a sequence of nodes wraps.
pub open spec fn node_views(ns: Seq<Node>) -> Seq<TokenView> {
    ns.map_values(|n: Node| n@)
}

} // verus!
