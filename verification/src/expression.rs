//! Expression trees for prefix arithmetic: leaves hold integer
//! literals, interior nodes hold an operator and an ordered list of
//! children.

use vstd::prelude::*;

verus! {

/// The closed set of operators; all of them are binary.
#[derive(Clone, Copy, PartialEq, Eq, Structural, Debug)]
pub enum Operator {
    Add,
    Sub,
    Mul,
    Div,
}

impl Operator {
    /// Every current operator takes exactly two operands; the
    /// evaluator consults this before checking arity.
    pub fn is_binary(&self) -> (b: bool)
        ensures
            b,
    {
        match self {
            Operator::Add => true,
            Operator::Sub => true,
            Operator::Mul => true,
            Operator::Div => true,
        }
    }
}

/// An interior node: an operator applied to an ordered list of
/// sub-expressions.
#[derive(Debug)]
pub struct Expression {
    pub operator: Operator,
    pub children: Vec<ExpressionTreeNode>,
}

/// A node of the tree: a literal or a sub-expression.
#[derive(Debug)]
pub enum ExpressionTreeNode {
    Val(i64),
    Expr(Expression),
}

/// The mathematical shape of a tree, with the children as a sequence.
pub enum ExprModel {
    Val(i64),
    Op(Operator, Seq<ExprModel>),
}

/// The models of a list of children, in order.
pub open spec fn children_model(cs: Seq<ExpressionTreeNode>) -> Seq<ExprModel>
    decreases cs,
{
    if cs.len() == 0 {
        Seq::empty()
    } else {
        seq![cs[0].model()] + children_model(cs.drop_first())
    }
}

impl ExpressionTreeNode {
    /// The mathematical shape of this node.
    pub open spec fn model(self) -> ExprModel
        decreases self,
    {
        match self {
            ExpressionTreeNode::Val(v) => ExprModel::Val(v),
            ExpressionTreeNode::Expr(e) => ExprModel::Op(e.operator, children_model(e.children@)),
        }
    }
}

/// How many nodes a tree holds; the evaluator's work measure.
pub open spec fn node_size(n: ExpressionTreeNode) -> nat
    decreases n,
{
    match n {
        ExpressionTreeNode::Val(_) => 1,
        ExpressionTreeNode::Expr(e) => 1 + nodes_size(e.children@),
    }
}

/// The total size of a list of trees.
pub open spec fn nodes_size(cs: Seq<ExpressionTreeNode>) -> nat
    decreases cs,
{
    if cs.len() == 0 {
        0
    } else {
        node_size(cs[0]) + nodes_size(cs.drop_first())
    }
}

/// The size of a two-child list is the sum of the children's sizes.
pub proof fn lemma_nodes_size_two(cs: Seq<ExpressionTreeNode>)
    requires
        cs.len() == 2,
    ensures
        nodes_size(cs) == node_size(cs[0]) + node_size(cs[1]),
{
    let d = cs.drop_first();
    assert(d[0] == cs[1]);
    assert(nodes_size(cs) == node_size(cs[0]) + nodes_size(d));
    assert(nodes_size(d) == node_size(d[0]) + nodes_size(d.drop_first()));
    assert(d.drop_first() =~= Seq::<ExpressionTreeNode>::empty());
    assert(nodes_size(d.drop_first()) == 0);
}

/// `children_model` is the pointwise model of the children.
pub proof fn lemma_children_model(cs: Seq<ExpressionTreeNode>)
    ensures
        children_model(cs).len() == cs.len(),
        forall|i: int| 0 <= i < cs.len() ==> children_model(cs)[i] == cs[i].model(),
    decreases cs.len(),
{
    if cs.len() != 0 {
        lemma_children_model(cs.drop_first());
    }
}

} // verus!
