//! The syntax-tree data model: node kinds, nodes, and their mathematical
//! models.
//!
//! A node is an immutable value built bottom-up during a parse; composite
//! nodes own their children.  Each node carries a half-open byte range
//! `[src_start, src_end)` into the original source text.

use vstd::prelude::*;

verus! {

/// Closed set of node kinds.  `Whitespace`, `LeftoverText` and `ErrorGroup`
/// are reserved for a future error-tolerant mode; the current grammar never
/// constructs them.
#[derive(Clone, Copy, Debug, PartialEq, Eq, Structural)]
pub enum SyntaxNodeType {
    Comment,
    VariableToken,
    StringToken,
    WordToken,
    OpenParen,
    CloseParen,
    Whitespace,
    LeftoverText,
    ExpressionGroup,
    ErrorGroup,
}

impl SyntaxNodeType {
    /// Kinds that never carry children.
    pub open spec fn spec_is_leaf(self) -> bool {
        self != SyntaxNodeType::ExpressionGroup && self != SyntaxNodeType::ErrorGroup
    }

    /// Whether this kind never carries children.
    pub fn is_leaf(&self) -> (r: bool)
        ensures
            r == self.spec_is_leaf(),
    {
        match self {
            SyntaxNodeType::ExpressionGroup | SyntaxNodeType::ErrorGroup => false,
            _ => true,
        }
    }
}

/// Mathematical model of a syntax node: children as a sequence, text as a
/// character sequence, range endpoints as unbounded integers.
pub struct SpecNode {
    pub kind: SyntaxNodeType,
    pub children: Seq<SpecNode>,
    pub text: Option<Seq<char>>,
    pub message: Option<Seq<char>>,
    pub complete: bool,
    pub start: nat,
    pub end: nat,
}

/// One parse-tree node.  `parsed_text` is present exactly for the leaf token
/// kinds that carry content; `message` is reserved for future error
/// annotation and never populated by the parser; `is_complete` is always
/// `true` under the current grammar.
#[derive(Debug, PartialEq)]
pub struct SyntaxNode {
    pub node_type: SyntaxNodeType,
    pub sub_nodes: Vec<SyntaxNode>,
    pub parsed_text: Option<String>,
    pub message: Option<String>,
    pub is_complete: bool,
    pub src_start: usize,
    pub src_end: usize,
}

impl SyntaxNode {
    /// The mathematical value of this node.
    pub open spec fn model(self) -> SpecNode
        decreases self,
    {
        SpecNode {
            kind: self.node_type,
            children: models(self.sub_nodes@),
            text: match self.parsed_text {
                Some(t) => Some(t@),
                None => None,
            },
            message: match self.message {
                Some(m) => Some(m@),
                None => None,
            },
            complete: self.is_complete,
            start: self.src_start as nat,
            end: self.src_end as nat,
        }
    }

    /// The byte range `[start, end)` of this node in the source text.
    pub fn src_range(&self) -> (r: (usize, usize))
        ensures
            r.0 == self.src_start,
            r.1 == self.src_end,
    {
        (self.src_start, self.src_end)
    }

    /// A composite or delimiter node: children, no text.
    pub fn new(node_type: SyntaxNodeType, start: usize, end: usize, sub_nodes: Vec<SyntaxNode>) -> (
        n: SyntaxNode)
        ensures
            n.node_type == node_type,
            n.sub_nodes == sub_nodes,
            n.parsed_text is None,
            n.message is None,
            n.is_complete,
            n.src_start == start,
            n.src_end == end,
    {
        SyntaxNode {
            node_type,
            sub_nodes,
            parsed_text: None,
            message: None,
            is_complete: true,
            src_start: start,
            src_end: end,
        }
    }

    /// A leaf token node carrying its parsed text.
    pub fn new_token_node(node_type: SyntaxNodeType, start: usize, end: usize, text: String) -> (
        n: SyntaxNode)
        ensures
            n.node_type == node_type,
            n.sub_nodes@ == Seq::<SyntaxNode>::empty(),
            n.parsed_text == Some(text),
            n.message is None,
            n.is_complete,
            n.src_start == start,
            n.src_end == end,
    {
        SyntaxNode {
            node_type,
            sub_nodes: Vec::new(),
            parsed_text: Some(text),
            message: None,
            is_complete: true,
            src_start: start,
            src_end: end,
        }
    }
}

/// Models of a sequence of nodes, in order.
pub open spec fn models(ns: Seq<SyntaxNode>) -> Seq<SpecNode>
    decreases ns,
{
    if ns.len() == 0 {
        Seq::empty()
    } else {
        seq![ns[0].model()] + models(ns.drop_first())
    }
}

/// `models` maps a sequence of nodes pointwise.
pub proof fn lemma_models_index(ns: Seq<SyntaxNode>)
    ensures
        models(ns).len() == ns.len(),
        forall|i: int| 0 <= i < ns.len() ==> models(ns)[i] == (#[trigger] ns[i]).model(),
    decreases ns,
{
    if ns.len() > 0 {
        lemma_models_index(ns.drop_first());
        assert forall|i: int| 0 <= i < ns.len() implies models(ns)[i] == (#[trigger] ns[i]).model()
        by {
            if i > 0 {
                assert(ns.drop_first()[i - 1] == ns[i]);
                assert(models(ns)[i] == models(ns.drop_first())[i - 1]);
            }
        }
    }
}

/// Appending a node appends its model.
pub proof fn lemma_models_push(ns: Seq<SyntaxNode>, n: SyntaxNode)
    ensures
        models(ns.push(n)) == models(ns).push(n.model()),
{
    lemma_models_index(ns.push(n));
    lemma_models_index(ns);
    assert forall|i: int| 0 <= i < ns.len() implies models(ns.push(n))[i] == models(ns)[i] by {
        assert(ns.push(n)[i] == ns[i]);
    }
    assert(ns.push(n)[ns.len() as int] == n);
    assert(models(ns.push(n)) =~= models(ns).push(n.model()));
}

} // verus!
