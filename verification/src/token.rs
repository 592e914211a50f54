//! Tokens: the smallest lexical units. A token is a kind tag and the text
//! that was matched; the text carries information only for integer literals.
use vstd::prelude::*;

verus! {

/// The closed set of token kinds the lexer can produce.
#[derive(Clone, Copy, Debug, PartialEq, Eq, Structural)]
pub enum TokenKind {
    /// A run of one or more decimal digits.
    Integer,
    Plus,
    Minus,
    Mul,
    Div,
    LParen,
    RParen,
    /// The end of the line: the input is exhausted or a newline was met.
    Eof,
}

/// One token: a kind and the exact bytes that were matched.
pub struct Token {
    pub kind: TokenKind,
    pub text: Vec<u8>,
}

impl Token {
    /// Build a token from its kind and matched text.
    pub fn new(kind: TokenKind, text: Vec<u8>) -> (t: Token)
        ensures
            t.kind == kind,
            t.text == text,
    {
        Token { kind, text }
    }
}

} // verus!
