//! The abstract syntax tree: a closed tagged union over two variants, an
//! integer literal and a binary operation. The tree is immutable once built
//! and every child is owned by exactly one parent.
use vstd::prelude::*;

verus! {

/// The operator a `BinOp` applies.
#[derive(Clone, Copy, Debug, PartialEq, Eq, Structural)]
pub enum OpKind {
    Plus,
    Minus,
    Mul,
    Div,
}

/// A leaf: one integer literal.
pub struct Num {
    pub value: i32,
}

impl Num {
    /// Build a literal node.
    pub fn new(value: i32) -> (n: Num)
        ensures
            n.value == value,
    {
        Num { value }
    }
}

/// An inner node: an operator applied to two fully-formed subtrees.
pub struct BinOp {
    pub op: OpKind,
    pub left: Box<Expr>,
    pub right: Box<Expr>,
}

impl BinOp {
    /// Build an operation node from its operator and two children.
    pub fn new(op: OpKind, left: Expr, right: Expr) -> (b: BinOp)
        ensures
            b.op == op,
            *b.left == left,
            *b.right == right,
    {
        BinOp { op, left: Box::new(left), right: Box::new(right) }
    }
}

/// An expression tree.
pub enum Expr {
    Num(Num),
    BinOp(BinOp),
}

} // verus!
