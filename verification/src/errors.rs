//! The errors an evaluation can end in. Every error aborts the whole
//! `evaluate` call; nothing is recovered or retried.
use vstd::prelude::*;

use crate::token::TokenKind;

verus! {

/// Why an evaluation failed.
#[derive(Clone, Copy, Debug, PartialEq, Eq, Structural)]
pub enum CalcError {
    /// The input holds a byte that is neither a digit, an operator, a
    /// parenthesis, a space nor a newline. The byte is carried along.
    UnknownCharacter(u8),
    /// The token stream does not match the grammar: the parser wanted a
    /// token of kind `expected` and saw one of kind `actual`.
    SyntaxError { expected: TokenKind, actual: TokenKind },
    /// An integer literal's text cannot be parsed as an `i32`: it is empty,
    /// holds a non-digit, or names a value above `i32::MAX`.
    MalformedLiteral,
    /// A division whose right operand evaluated to zero.
    DivisionByZero,
    /// An addition, subtraction, multiplication or division whose exact
    /// result falls outside the range of `i32`.
    Overflow,
}

} // verus!
