//! The evaluator: walks an expression tree and reduces it to an `i32`.
//! Division truncates toward zero; a zero divisor is an error, and so is
//! any exact result that falls outside the range of `i32`.
use vstd::prelude::*;

use crate::ast::{BinOp, Expr, Num, OpKind};
use crate::errors::CalcError;

verus! {

/// Does `x` fit in an `i32`?
pub open spec fn in_i32(x: int) -> bool {
    i32::MIN <= x <= i32::MAX
}

/// Integer division truncated toward zero: the quotient of the absolute
/// values, negated when exactly one operand is negative.
pub open spec fn trunc_div(a: int, b: int) -> int {
    let q = (if a < 0 {
        -a
    } else {
        a
    }) / (if b < 0 {
        -b
    } else {
        b
    });
    if (a < 0) == (b < 0) {
        q
    } else {
        -q
    }
}

/// What one operator application yields on two already-evaluated operands.
pub open spec fn spec_apply(op: OpKind, l: i32, r: i32) -> Result<i32, CalcError> {
    match op {
        OpKind::Plus => if in_i32(l + r) {
            Ok((l + r) as i32)
        } else {
            Err(CalcError::Overflow)
        },
        OpKind::Minus => if in_i32(l - r) {
            Ok((l - r) as i32)
        } else {
            Err(CalcError::Overflow)
        },
        OpKind::Mul => if in_i32(l * r) {
            Ok((l * r) as i32)
        } else {
            Err(CalcError::Overflow)
        },
        OpKind::Div => if r == 0 {
            Err(CalcError::DivisionByZero)
        } else if in_i32(trunc_div(l as int, r as int)) {
            Ok(trunc_div(l as int, r as int) as i32)
        } else {
            Err(CalcError::Overflow)
        },
    }
}

/// The value of a tree: a literal yields its stored value; an operation
/// node evaluates its left child, then its right child, then combines the
/// two, and the first error on that way is the result.
pub open spec fn spec_eval(e: Expr) -> Result<i32, CalcError>
    decreases e,
{
    match e {
        Expr::Num(n) => Ok(n.value),
        Expr::BinOp(b) => match spec_eval(*b.left) {
            Err(er) => Err(er),
            Ok(l) => match spec_eval(*b.right) {
                Err(er) => Err(er),
                Ok(r) => spec_apply(b.op, l, r),
            },
        },
    }
}

/// The tree walker. It holds no state: every evaluation is independent.
pub struct Interpreter {}

impl Interpreter {
    /// A fresh tree walker.
    pub fn new() -> (it: Interpreter) {
        Interpreter {  }
    }

    /// Evaluate a whole tree by dispatching on its root's variant.
    pub fn visit(&self, node: &Expr) -> (r: Result<i32, CalcError>)
        ensures
            r == spec_eval(*node),
        decreases *node,
    {
        match node {
            Expr::Num(n) => Ok(self.visit_Num(n)),
            Expr::BinOp(b) => self.visit_BinOp(b),
        }
    }

    /// Evaluate an operation node: left child first, then right child,
    /// then the operator, stopping at the first error.
    #[allow(non_snake_case)]
    pub fn visit_BinOp(&self, node: &BinOp) -> (r: Result<i32, CalcError>)
        ensures
            r == spec_eval(Expr::BinOp(*node)),
        decreases *node,
    {
        let l = match self.visit(&node.left) {
            Ok(v) => v,
            Err(e) => {
                return Err(e);
            },
        };
        let r = match self.visit(&node.right) {
            Ok(v) => v,
            Err(e) => {
                return Err(e);
            },
        };
        match node.op {
            OpKind::Plus => match l.checked_add(r) {
                Some(v) => Ok(v),
                None => Err(CalcError::Overflow),
            },
            OpKind::Minus => match l.checked_sub(r) {
                Some(v) => Ok(v),
                None => Err(CalcError::Overflow),
            },
            OpKind::Mul => match l.checked_mul(r) {
                Some(v) => Ok(v),
                None => Err(CalcError::Overflow),
            },
            OpKind::Div => {
                if r == 0 {
                    Err(CalcError::DivisionByZero)
                } else {
                    match l.checked_div(r) {
                        Some(v) => Ok(v),
                        None => Err(CalcError::Overflow),
                    }
                }
            },
        }
    }

    /// Evaluate a literal node: its stored value, directly.
    #[allow(non_snake_case)]
    pub fn visit_Num(&self, node: &Num) -> (v: i32)
        ensures
            v == node.value,
    {
        node.value
    }
}

} // verus!
