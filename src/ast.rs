//! The syntax tree that the expression grammar builds, and its model.
use vstd::prelude::*;

verus! {

/// A binary operator. Precedence is not stored here: it follows from the
/// grammar layer that built the node.
#[derive(Clone, Copy, Debug, PartialEq, Eq, Structural)]
pub enum Op {
    Pow,
    Mul,
    Div,
    Mod,
    Plus,
    Minus,
    Eq,
    Ne,
    Lt,
    Gt,
    Le,
    Ge,
    And,
    Unless,
    Or,
}

/// A vector operand, kept as the selector text it was parsed from.
#[derive(Debug, PartialEq)]
pub struct Vector {
    pub selector: Vec<u8>,
}

/// A scalar operand: not-a-number, or a decimal literal kept as its text
/// (sign, digits, fraction and exponent), to be read as a 32-bit float.
#[derive(Debug, PartialEq)]
pub enum Scalar {
    NaN,
    Number(Vec<u8>),
}

impl Scalar {
    pub fn is_nan(&self) -> (r: bool)
        ensures
            r == (self is NaN),
    {
        match self {
            Scalar::NaN => true,
            Scalar::Number(_) => false,
        }
    }
}

#[derive(Debug, PartialEq)]
pub enum Node {
    Operator(Box<Node>, Op, Box<Node>),
    InstantVector(Vector),
    Scalar(Scalar),
}

/// The mathematical model of a syntax tree.
pub enum Tree {
    Operator(Box<Tree>, Op, Box<Tree>),
    InstantVector(Seq<u8>),
    NaN,
    Number(Seq<u8>),
}

impl Node {
    pub open spec fn model(self) -> Tree
        decreases self,
    {
        match self {
            Node::Operator(x, op, y) => Tree::Operator(Box::new(x.model()), op, Box::new(y.model())),
            Node::InstantVector(v) => Tree::InstantVector(v.selector@),
            Node::Scalar(Scalar::NaN) => Tree::NaN,
            Node::Scalar(Scalar::Number(t)) => Tree::Number(t@),
        }
    }

    pub fn operator(x: Node, op: Op, y: Node) -> (r: Node)
        ensures
            r.model() == Tree::Operator(Box::new(x.model()), op, Box::new(y.model())),
    {
        Node::Operator(Box::new(x), op, Box::new(y))
    }
}

} // verus!
