//! An arithmetic expression interpreter: a lexer turns a line of input
//! bytes into tokens, a recursive-descent parser builds an abstract syntax
//! tree with the usual precedence and left-associativity, and a tree-walking
//! evaluator reduces the tree to an `i32`.
use vstd::prelude::*;

pub mod ast;
pub mod errors;
pub mod eval;
pub mod lexer;
pub mod parser;
pub mod token;

use crate::ast::{Expr, Num};
use crate::errors::CalcError;
use crate::eval::{spec_eval, Interpreter};
use crate::lexer::{digit_run_end, lemma_digit_run_end_bounds, lemma_tokens_cons_space,
    lemma_tokens_head, lemma_tokens_push_space, skip_spaces, spec_next, spec_tokens, Lexer,
    SPACE};
use crate::parser::{all_digits, digits_value, lemma_digits_value_nonneg, lemma_expr_stream,
    spec_expr, spec_factor, spec_term, Parser};
use crate::token::TokenKind;

verus! {

/// What `evaluate` returns on a line of input: the expression is parsed from
/// the first token on, the whole line must be consumed (up to a newline or
/// the end), and the resulting tree is evaluated.
pub open spec fn spec_evaluate(s: Seq<u8>) -> Result<i32, CalcError> {
    match spec_expr(s, 0) {
        Err(e) => Err(e),
        Ok((ast, st)) => match spec_next(s, st) {
            // A successful parse always leaves a scanned token behind it,
            // so this arm is never reached.
            None => arbitrary(),
            Some((kind, _, _)) => if kind is Eof {
                spec_eval(ast)
            } else {
                Err(CalcError::SyntaxError { expected: TokenKind::Eof, actual: kind })
            },
        },
    }
}

/// Evaluate one line of input. The bytes after a newline are ignored; every
/// other byte must belong to the expression. The result is exactly what the
/// grammar and the evaluation rules give, or the first error either one
/// meets.
pub fn evaluate(text: &[u8]) -> (r: Result<i32, CalcError>)
    ensures
        r == spec_evaluate(text@),
{
    let lexer = Lexer::new(text);
    let mut parser = match Parser::new(lexer) {
        Ok(p) => p,
        Err(e) => {
            return Err(e);
        },
    };
    let ast = match parser.expr() {
        Ok(a) => a,
        Err(e) => {
            return Err(e);
        },
    };
    if parser.current_token.kind != TokenKind::Eof {
        return Err(CalcError::SyntaxError {
            expected: TokenKind::Eof,
            actual: parser.current_token.kind,
        });
    }
    let interpreter = Interpreter::new();
    interpreter.visit(&ast)
}

/// A line that is nothing but digits evaluates to exactly the number those
/// digits name, whenever that number fits in an `i32`. (An empty line is a
/// syntax error, and digits naming a value above `i32::MAX` are a malformed
/// literal, so both stay outside this statement.)
pub proof fn lemma_evaluate_digits(s: Seq<u8>)
    requires
        s.len() > 0,
        all_digits(s),
        digits_value(s) <= i32::MAX,
    ensures
        spec_evaluate(s) == Ok::<i32, CalcError>(digits_value(s) as i32),
{
    lemma_digits_value_nonneg(s);
    let n = s.len() as int;
    assert(skip_spaces(s, 0) == 0);
    lemma_digit_run_end_bounds(s, 0);
    let e = digit_run_end(s, 0);
    assert(e == n);
    assert(s.subrange(0, n) =~= s);
    assert(spec_next(s, 0) == Some((TokenKind::Integer, s, n)));
    assert(skip_spaces(s, n) == n);
    assert(spec_next(s, n) == Some((TokenKind::Eof, Seq::<u8>::empty(), n)));
    let v = digits_value(s) as i32;
    let num = Expr::Num(Num { value: v });
    assert(spec_factor(s, 0) == Ok::<(Expr, int), CalcError>((num, n)));
    assert(spec_term(s, 0) == Ok::<(Expr, int), CalcError>((num, n)));
    assert(spec_expr(s, 0) == Ok::<(Expr, int), CalcError>((num, n)));
    assert(spec_eval(num) == Ok::<i32, CalcError>(v));
}

/// Whitespace insensitivity, in its general form: two lines that scan to
/// the same token stream evaluate to the same result. Spaces never enter
/// the stream, so however a line is spaced between its tokens, only the
/// tokens decide the value.
pub proof fn lemma_evaluate_same_tokens(s1: Seq<u8>, s2: Seq<u8>)
    requires
        spec_tokens(s1, 0) == spec_tokens(s2, 0),
    ensures
        spec_evaluate(s1) == spec_evaluate(s2),
{
    lemma_expr_stream(s1, 0, s2, 0);
    match (spec_expr(s1, 0), spec_expr(s2, 0)) {
        (Ok((e1, st1)), Ok((e2, st2))) => {
            lemma_tokens_head(s1, st1, s2, st2);
        },
        _ => {},
    }
}

/// A space in front of the line never changes the result.
pub proof fn lemma_evaluate_leading_space(s: Seq<u8>)
    ensures
        spec_evaluate(seq![SPACE].add(s)) == spec_evaluate(s),
{
    lemma_tokens_cons_space(s);
    lemma_evaluate_same_tokens(seq![SPACE].add(s), s);
}

/// A space after the line never changes the result.
pub proof fn lemma_evaluate_trailing_space(s: Seq<u8>)
    ensures
        spec_evaluate(s.push(SPACE)) == spec_evaluate(s),
{
    lemma_tokens_push_space(s, 0);
    lemma_evaluate_same_tokens(s.push(SPACE), s);
}

} // verus!
