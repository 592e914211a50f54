//! The parser: recursive descent over the token stream, one token of
//! lookahead, for the grammar
//!
//! ```text
//! expr   := term (('+' | '-') term)*
//! term   := factor (('*' | '/') factor)*
//! factor := INTEGER | '(' expr ')'
//! ```
//!
//! The spec functions below give the grammar as mathematics: each takes the
//! input and the position in front of the current token and yields the tree
//! it builds together with the position in front of the token that follows
//! it, or the first error on the way. The `Parser` methods are proved to
//! return exactly what they say.
use vstd::prelude::*;

use crate::ast::{BinOp, Expr, Num, OpKind};
use crate::errors::CalcError;
use crate::lexer::{is_digit, lex_error, lemma_spec_next_bounds, lemma_tokens_head, spec_next,
    spec_tokens, Lexer, DIGIT_ZERO, DIGIT_NINE};
use crate::token::{Token, TokenKind};

verus! {

/// Is every byte of `t` a decimal digit?
pub open spec fn all_digits(t: Seq<u8>) -> bool {
    forall|k: int| 0 <= k < t.len() ==> is_digit(t[k])
}

/// The number a sequence of digit bytes names, read left to right.
pub open spec fn digits_value(t: Seq<u8>) -> int
    decreases t.len(),
{
    if t.len() == 0 {
        0
    } else {
        digits_value(t.drop_last()) * 10 + (t.last() - DIGIT_ZERO)
    }
}

/// What a token text parses to as an `i32`: its numeric value, or
/// `MalformedLiteral` when it is empty, holds a non-digit, or names a value
/// above `i32::MAX`.
pub open spec fn spec_literal(t: Seq<u8>) -> Result<i32, CalcError> {
    if t.len() == 0 || !all_digits(t) {
        Err(CalcError::MalformedLiteral)
    } else if digits_value(t) > i32::MAX {
        Err(CalcError::MalformedLiteral)
    } else {
        Ok(digits_value(t) as i32)
    }
}

pub proof fn lemma_digits_value_nonneg(t: Seq<u8>)
    requires
        all_digits(t),
    ensures
        digits_value(t) >= 0,
    decreases t.len(),
{
    if t.len() > 0 {
        assert(all_digits(t.drop_last()));
        lemma_digits_value_nonneg(t.drop_last());
    }
}

proof fn lemma_digits_value_prefix_le(t: Seq<u8>, i: int)
    requires
        all_digits(t),
        0 <= i <= t.len(),
    ensures
        digits_value(t.subrange(0, i)) <= digits_value(t),
    decreases t.len() - i,
{
    if i < t.len() {
        lemma_digits_value_prefix_le(t, i + 1);
        let p = t.subrange(0, i);
        let q = t.subrange(0, i + 1);
        assert(q.drop_last() =~= p);
        assert(all_digits(p));
        lemma_digits_value_nonneg(p);
    } else {
        assert(t.subrange(0, i) =~= t);
    }
}

/// Turn a token text into the `i32` it names: `spec_literal`, executably.
pub fn parse_literal(text: &[u8]) -> (r: Result<i32, CalcError>)
    ensures
        r == spec_literal(text@),
{
    if text.len() == 0 {
        return Err(CalcError::MalformedLiteral);
    }
    let mut acc: i32 = 0;
    let mut idx: usize = 0;
    while idx < text.len()
        invariant
            0 <= idx <= text@.len(),
            all_digits(text@.subrange(0, idx as int)),
            acc == digits_value(text@.subrange(0, idx as int)),
            0 <= acc <= i32::MAX,
        decreases text@.len() - idx,
    {
        let b = text[idx];
        if b < DIGIT_ZERO || b > DIGIT_NINE {
            assert(!all_digits(text@));
            return Err(CalcError::MalformedLiteral);
        }
        let d: i32 = (b - DIGIT_ZERO) as i32;
        proof {
            assert(text@.subrange(0, idx + 1).drop_last() =~= text@.subrange(0, idx as int));
            if all_digits(text@) {
                lemma_digits_value_prefix_le(text@, idx + 1);
            }
        }
        let acc10 = match acc.checked_mul(10) {
            Some(v) => v,
            None => {
                return Err(CalcError::MalformedLiteral);
            },
        };
        acc = match acc10.checked_add(d) {
            Some(v) => v,
            None => {
                return Err(CalcError::MalformedLiteral);
            },
        };
        idx = idx + 1;
    }
    proof {
        assert(text@.subrange(0, idx as int) =~= text@);
    }
    Ok(acc)
}

/// Fetching the token after position `j` succeeds unless the line holds an
/// unknown byte right there: what the parser's `eat` sees when it asks the
/// lexer for the token that follows the one it consumed.
pub open spec fn spec_eat(s: Seq<u8>, j: int) -> Result<int, CalcError> {
    if spec_next(s, j) is Some {
        Ok(j)
    } else {
        Err(lex_error(s, j))
    }
}

/// Keep a parse position inside `[lo, hi]`. A parse never really leaves
/// that window (see the bounds lemmas below), so the clamps in the
/// definitions never bite; they only make termination plain to the checker.
pub open spec fn clamp_pos(lo: int, x: int, hi: int) -> int {
    if x < lo {
        lo
    } else if x > hi {
        hi
    } else {
        x
    }
}

/// `factor := INTEGER | '(' expr ')'`, as a function of the input and the
/// position in front of the current token.
pub open spec fn spec_factor(s: Seq<u8>, st: int) -> Result<(Expr, int), CalcError>
    decreases s.len() - st, 0int,
        when 0 <= st <= s.len()
{
    match spec_next(s, st) {
        None => Err(lex_error(s, st)),
        Some((kind, text, j)) => {
            if kind is Integer {
                match spec_literal(text) {
                    Err(e) => Err(e),
                    Ok(v) => match spec_eat(s, j) {
                        Err(e) => Err(e),
                        Ok(_) => Ok((Expr::Num(Num { value: v }), j)),
                    },
                }
            } else if kind is LParen {
                match spec_eat(s, j) {
                    Err(e) => Err(e),
                    Ok(_) => {
                        proof {
                            lemma_spec_next_bounds(s, st);
                        }
                        match spec_expr(s, j) {
                            Err(e) => Err(e),
                            Ok((inner, st2)) => match spec_next(s, st2) {
                                None => Err(lex_error(s, st2)),
                                Some((k2, _, m)) => {
                                    if k2 is RParen {
                                        match spec_eat(s, m) {
                                            Err(e) => Err(e),
                                            Ok(_) => Ok((inner, m)),
                                        }
                                    } else {
                                        Err(CalcError::SyntaxError {
                                            expected: TokenKind::RParen,
                                            actual: k2,
                                        })
                                    }
                                },
                            },
                        }
                    },
                }
            } else {
                Err(CalcError::SyntaxError { expected: TokenKind::Integer, actual: kind })
            }
        },
    }
}

/// `term := factor (('*' | '/') factor)*`.
pub open spec fn spec_term(s: Seq<u8>, st: int) -> Result<(Expr, int), CalcError>
    decreases s.len() - st, 2int,
        when 0 <= st <= s.len()
{
    match spec_factor(s, st) {
        Err(e) => Err(e),
        Ok((e0, st1)) => spec_term_tail(s, e0, clamp_pos(st, st1, s.len() as int)),
    }
}

/// The left fold behind `term`: while the current token is `*` or `/`,
/// consume it, parse one more factor, and hang the accumulator built so far
/// under the new operation node as its left child.
pub open spec fn spec_term_tail(s: Seq<u8>, acc: Expr, st: int) -> Result<(Expr, int), CalcError>
    decreases s.len() - st, 1int,
        when 0 <= st <= s.len()
{
    match spec_next(s, st) {
        None => Err(lex_error(s, st)),
        Some((kind, _, j)) => {
            if kind is Mul || kind is Div {
                let op = if kind is Mul {
                    OpKind::Mul
                } else {
                    OpKind::Div
                };
                match spec_eat(s, j) {
                    Err(e) => Err(e),
                    Ok(_) => {
                        proof {
                            lemma_spec_next_bounds(s, st);
                        }
                        match spec_factor(s, j) {
                            Err(e) => Err(e),
                            Ok((rhs, st2)) => spec_term_tail(
                                s,
                                Expr::BinOp(
                                    BinOp { op, left: Box::new(acc), right: Box::new(rhs) },
                                ),
                                clamp_pos(j, st2, s.len() as int),
                            ),
                        }
                    },
                }
            } else {
                Ok((acc, st))
            }
        },
    }
}

/// `expr := term (('+' | '-') term)*`.
pub open spec fn spec_expr(s: Seq<u8>, st: int) -> Result<(Expr, int), CalcError>
    decreases s.len() - st, 4int,
        when 0 <= st <= s.len()
{
    match spec_term(s, st) {
        Err(e) => Err(e),
        Ok((e0, st1)) => spec_expr_tail(s, e0, clamp_pos(st, st1, s.len() as int)),
    }
}

/// The left fold behind `expr`, one precedence level above
/// `spec_term_tail`: the same shape, over `+` and `-`.
pub open spec fn spec_expr_tail(s: Seq<u8>, acc: Expr, st: int) -> Result<(Expr, int), CalcError>
    decreases s.len() - st, 3int,
        when 0 <= st <= s.len()
{
    match spec_next(s, st) {
        None => Err(lex_error(s, st)),
        Some((kind, _, j)) => {
            if kind is Plus || kind is Minus {
                let op = if kind is Plus {
                    OpKind::Plus
                } else {
                    OpKind::Minus
                };
                match spec_eat(s, j) {
                    Err(e) => Err(e),
                    Ok(_) => {
                        proof {
                            lemma_spec_next_bounds(s, st);
                        }
                        match spec_term(s, j) {
                            Err(e) => Err(e),
                            Ok((rhs, st2)) => spec_expr_tail(
                                s,
                                Expr::BinOp(
                                    BinOp { op, left: Box::new(acc), right: Box::new(rhs) },
                                ),
                                clamp_pos(j, st2, s.len() as int),
                            ),
                        }
                    },
                }
            } else {
                Ok((acc, st))
            }
        },
    }
}

/// A successful parse only moves forward, and never past the end: every
/// spec parse function that returns `Ok` hands back a position strictly
/// after the one it was given and at most the length. In particular the
/// clamps in the definitions above never bite.
pub proof fn lemma_factor_bounds(s: Seq<u8>, st: int)
    requires
        0 <= st <= s.len(),
    ensures
        match spec_factor(s, st) {
            Ok((e, st1)) => st + 1 <= st1 <= s.len(),
            Err(_) => true,
        },
    decreases s.len() - st, 0int,
{
    lemma_spec_next_bounds(s, st);
    match spec_next(s, st) {
        None => {},
        Some((kind, text, j)) => {
            if kind is LParen && spec_eat(s, j) is Ok {
                lemma_expr_bounds(s, j);
                match spec_expr(s, j) {
                    Err(_) => {},
                    Ok((inner, st2)) => {
                        lemma_spec_next_bounds(s, st2);
                    },
                }
            }
        },
    }
}

pub proof fn lemma_term_tail_bounds(s: Seq<u8>, acc: Expr, st: int)
    requires
        0 <= st <= s.len(),
    ensures
        match spec_term_tail(s, acc, st) {
            Ok((e, st1)) => st <= st1 <= s.len(),
            Err(_) => true,
        },
    decreases s.len() - st, 1int,
{
    lemma_spec_next_bounds(s, st);
    match spec_next(s, st) {
        None => {},
        Some((kind, _, j)) => {
            if (kind is Mul || kind is Div) && spec_eat(s, j) is Ok {
                let op = if kind is Mul {
                    OpKind::Mul
                } else {
                    OpKind::Div
                };
                lemma_factor_bounds(s, j);
                match spec_factor(s, j) {
                    Err(_) => {},
                    Ok((rhs, st2)) => {
                        lemma_term_tail_bounds(
                            s,
                            Expr::BinOp(BinOp { op, left: Box::new(acc), right: Box::new(rhs) }),
                            st2,
                        );
                    },
                }
            }
        },
    }
}

pub proof fn lemma_term_bounds(s: Seq<u8>, st: int)
    requires
        0 <= st <= s.len(),
    ensures
        match spec_term(s, st) {
            Ok((e, st1)) => st + 1 <= st1 <= s.len(),
            Err(_) => true,
        },
    decreases s.len() - st, 2int,
{
    lemma_factor_bounds(s, st);
    match spec_factor(s, st) {
        Err(_) => {},
        Ok((e0, st1)) => {
            lemma_term_tail_bounds(s, e0, st1);
        },
    }
}

pub proof fn lemma_expr_tail_bounds(s: Seq<u8>, acc: Expr, st: int)
    requires
        0 <= st <= s.len(),
    ensures
        match spec_expr_tail(s, acc, st) {
            Ok((e, st1)) => st <= st1 <= s.len(),
            Err(_) => true,
        },
    decreases s.len() - st, 3int,
{
    lemma_spec_next_bounds(s, st);
    match spec_next(s, st) {
        None => {},
        Some((kind, _, j)) => {
            if (kind is Plus || kind is Minus) && spec_eat(s, j) is Ok {
                let op = if kind is Plus {
                    OpKind::Plus
                } else {
                    OpKind::Minus
                };
                lemma_term_bounds(s, j);
                match spec_term(s, j) {
                    Err(_) => {},
                    Ok((rhs, st2)) => {
                        lemma_expr_tail_bounds(
                            s,
                            Expr::BinOp(BinOp { op, left: Box::new(acc), right: Box::new(rhs) }),
                            st2,
                        );
                    },
                }
            }
        },
    }
}

pub proof fn lemma_expr_bounds(s: Seq<u8>, st: int)
    requires
        0 <= st <= s.len(),
    ensures
        match spec_expr(s, st) {
            Ok((e, st1)) => st + 1 <= st1 <= s.len(),
            Err(_) => true,
        },
    decreases s.len() - st, 4int,
{
    lemma_term_bounds(s, st);
    match spec_term(s, st) {
        Err(_) => {},
        Ok((e0, st1)) => {
            lemma_expr_tail_bounds(s, e0, st1);
        },
    }
}


/// The parse of a factor is decided by the token stream alone: on two
/// lines whose streams agree, both parses give the same tree or the same
/// error, and on success the streams that remain agree again.
pub proof fn lemma_factor_stream(s1: Seq<u8>, i1: int, s2: Seq<u8>, i2: int)
    requires
        0 <= i1 <= s1.len(),
        0 <= i2 <= s2.len(),
        spec_tokens(s1, i1) == spec_tokens(s2, i2),
    ensures
        match (spec_factor(s1, i1), spec_factor(s2, i2)) {
            (Ok((e1, st1)), Ok((e2, st2))) => e1 == e2 && 0 <= st1 <= s1.len() && 0 <= st2
                <= s2.len() && spec_tokens(s1, st1) == spec_tokens(s2, st2),
            (Err(x), Err(y)) => x == y,
            _ => false,
        },
    decreases s1.len() - i1, 0int,
{
    lemma_tokens_head(s1, i1, s2, i2);
    lemma_spec_next_bounds(s1, i1);
    lemma_spec_next_bounds(s2, i2);
    match (spec_next(s1, i1), spec_next(s2, i2)) {
        (Some((k1, t1, j1)), Some((k2, t2, j2))) => {
            if k1 is Integer {
                if spec_literal(t1) is Ok {
                    lemma_tokens_head(s1, j1, s2, j2);
                }
            } else if k1 is LParen {
                lemma_tokens_head(s1, j1, s2, j2);
                if spec_eat(s1, j1) is Ok {
                    lemma_expr_stream(s1, j1, s2, j2);
                    match (spec_expr(s1, j1), spec_expr(s2, j2)) {
                        (Ok((in1, p1)), Ok((in2, p2))) => {
                            lemma_tokens_head(s1, p1, s2, p2);
                            lemma_spec_next_bounds(s1, p1);
                            lemma_spec_next_bounds(s2, p2);
                            match (spec_next(s1, p1), spec_next(s2, p2)) {
                                (Some((q1, u1, m1)), Some((q2, u2, m2))) => {
                                    if q1 is RParen {
                                        lemma_tokens_head(s1, m1, s2, m2);
                                    }
                                },
                                _ => {},
                            }
                        },
                        _ => {},
                    }
                }
            }
        },
        _ => {},
    }
}

/// As `lemma_factor_stream`, for the fold behind `term`, carrying the
/// accumulator both parses share.
pub proof fn lemma_term_tail_stream(s1: Seq<u8>, i1: int, s2: Seq<u8>, i2: int, acc: Expr)
    requires
        0 <= i1 <= s1.len(),
        0 <= i2 <= s2.len(),
        spec_tokens(s1, i1) == spec_tokens(s2, i2),
    ensures
        match (spec_term_tail(s1, acc, i1), spec_term_tail(s2, acc, i2)) {
            (Ok((e1, st1)), Ok((e2, st2))) => e1 == e2 && 0 <= st1 <= s1.len() && 0 <= st2
                <= s2.len() && spec_tokens(s1, st1) == spec_tokens(s2, st2),
            (Err(x), Err(y)) => x == y,
            _ => false,
        },
    decreases s1.len() - i1, 1int,
{
    lemma_tokens_head(s1, i1, s2, i2);
    lemma_spec_next_bounds(s1, i1);
    lemma_spec_next_bounds(s2, i2);
    match (spec_next(s1, i1), spec_next(s2, i2)) {
        (Some((k1, t1, j1)), Some((k2, t2, j2))) => {
            if k1 is Mul || k1 is Div {
                let op = if k1 is Mul {
                    OpKind::Mul
                } else {
                    OpKind::Div
                };
                lemma_tokens_head(s1, j1, s2, j2);
                if spec_eat(s1, j1) is Ok {
                    lemma_factor_stream(s1, j1, s2, j2);
                    lemma_factor_bounds(s1, j1);
                    lemma_factor_bounds(s2, j2);
                    match (spec_factor(s1, j1), spec_factor(s2, j2)) {
                        (Ok((rhs1, p1)), Ok((rhs2, p2))) => {
                            lemma_term_tail_stream(
                                s1,
                                p1,
                                s2,
                                p2,
                                Expr::BinOp(
                                    BinOp { op, left: Box::new(acc), right: Box::new(rhs1) },
                                ),
                            );
                        },
                        _ => {},
                    }
                }
            }
        },
        _ => {},
    }
}

/// As `lemma_factor_stream`, for a whole term.
pub proof fn lemma_term_stream(s1: Seq<u8>, i1: int, s2: Seq<u8>, i2: int)
    requires
        0 <= i1 <= s1.len(),
        0 <= i2 <= s2.len(),
        spec_tokens(s1, i1) == spec_tokens(s2, i2),
    ensures
        match (spec_term(s1, i1), spec_term(s2, i2)) {
            (Ok((e1, st1)), Ok((e2, st2))) => e1 == e2 && 0 <= st1 <= s1.len() && 0 <= st2
                <= s2.len() && spec_tokens(s1, st1) == spec_tokens(s2, st2),
            (Err(x), Err(y)) => x == y,
            _ => false,
        },
    decreases s1.len() - i1, 2int,
{
    lemma_factor_stream(s1, i1, s2, i2);
    lemma_factor_bounds(s1, i1);
    lemma_factor_bounds(s2, i2);
    match (spec_factor(s1, i1), spec_factor(s2, i2)) {
        (Ok((e1, st1)), Ok((e2, st2))) => {
            lemma_term_tail_stream(s1, st1, s2, st2, e1);
        },
        _ => {},
    }
}

/// As `lemma_factor_stream`, for the fold behind `expr`.
pub proof fn lemma_expr_tail_stream(s1: Seq<u8>, i1: int, s2: Seq<u8>, i2: int, acc: Expr)
    requires
        0 <= i1 <= s1.len(),
        0 <= i2 <= s2.len(),
        spec_tokens(s1, i1) == spec_tokens(s2, i2),
    ensures
        match (spec_expr_tail(s1, acc, i1), spec_expr_tail(s2, acc, i2)) {
            (Ok((e1, st1)), Ok((e2, st2))) => e1 == e2 && 0 <= st1 <= s1.len() && 0 <= st2
                <= s2.len() && spec_tokens(s1, st1) == spec_tokens(s2, st2),
            (Err(x), Err(y)) => x == y,
            _ => false,
        },
    decreases s1.len() - i1, 3int,
{
    lemma_tokens_head(s1, i1, s2, i2);
    lemma_spec_next_bounds(s1, i1);
    lemma_spec_next_bounds(s2, i2);
    match (spec_next(s1, i1), spec_next(s2, i2)) {
        (Some((k1, t1, j1)), Some((k2, t2, j2))) => {
            if k1 is Plus || k1 is Minus {
                let op = if k1 is Plus {
                    OpKind::Plus
                } else {
                    OpKind::Minus
                };
                lemma_tokens_head(s1, j1, s2, j2);
                if spec_eat(s1, j1) is Ok {
                    lemma_term_stream(s1, j1, s2, j2);
                    lemma_term_bounds(s1, j1);
                    lemma_term_bounds(s2, j2);
                    match (spec_term(s1, j1), spec_term(s2, j2)) {
                        (Ok((rhs1, p1)), Ok((rhs2, p2))) => {
                            lemma_expr_tail_stream(
                                s1,
                                p1,
                                s2,
                                p2,
                                Expr::BinOp(
                                    BinOp { op, left: Box::new(acc), right: Box::new(rhs1) },
                                ),
                            );
                        },
                        _ => {},
                    }
                }
            }
        },
        _ => {},
    }
}

/// As `lemma_factor_stream`, for a whole expression.
pub proof fn lemma_expr_stream(s1: Seq<u8>, i1: int, s2: Seq<u8>, i2: int)
    requires
        0 <= i1 <= s1.len(),
        0 <= i2 <= s2.len(),
        spec_tokens(s1, i1) == spec_tokens(s2, i2),
    ensures
        match (spec_expr(s1, i1), spec_expr(s2, i2)) {
            (Ok((e1, st1)), Ok((e2, st2))) => e1 == e2 && 0 <= st1 <= s1.len() && 0 <= st2
                <= s2.len() && spec_tokens(s1, st1) == spec_tokens(s2, st2),
            (Err(x), Err(y)) => x == y,
            _ => false,
        },
    decreases s1.len() - i1, 4int,
{
    lemma_term_stream(s1, i1, s2, i2);
    lemma_term_bounds(s1, i1);
    lemma_term_bounds(s2, i2);
    match (spec_term(s1, i1), spec_term(s2, i2)) {
        (Ok((e1, st1)), Ok((e2, st2))) => {
            lemma_expr_tail_stream(s1, st1, s2, st2, e1);
        },
        _ => {},
    }
}

/// The parser: a lexer, the one token of lookahead, and (as ghost state)
/// the position in front of that token, which ties the pair to the spec
/// functions above.
pub struct Parser<'a> {
    pub lexer: Lexer<'a>,
    pub current_token: Token,
    pub start: Ghost<int>,
}

impl<'a> Parser<'a> {
    /// The line being parsed.
    pub open spec fn s(self) -> Seq<u8> {
        self.lexer.text@
    }

    /// The lookahead is exactly the token scanned at `start`, and the
    /// lexer's cursor stands just past it.
    pub open spec fn wf(self) -> bool {
        &&& self.lexer.wf()
        &&& 0 <= self.start@ <= self.s().len()
        &&& spec_next(self.s(), self.start@) == Some(
            (self.current_token.kind, self.current_token.text@, self.lexer.pos as int),
        )
    }

    /// Wrap a lexer and scan the first token.
    pub fn new(lexer: Lexer<'a>) -> (r: Result<Parser<'a>, CalcError>)
        requires
            lexer.wf(),
        ensures
            match spec_next(lexer.text@, lexer.pos as int) {
                Some(_) => r matches Ok(p) && p.wf() && p.s() == lexer.text@ && p.start@
                    == lexer.pos,
                None => r == Err::<Parser<'a>, CalcError>(
                    lex_error(lexer.text@, lexer.pos as int),
                ),
            },
    {
        let ghost st = lexer.pos as int;
        let mut lx = lexer;
        match lx.get_next_token() {
            Ok(t) => Ok(Parser { lexer: lx, current_token: t, start: Ghost(st) }),
            Err(e) => Err(e),
        }
    }

    /// The single point of token consumption: check that the lookahead has
    /// the expected kind, then replace it by the next token from the lexer.
    pub fn eat(&mut self, kind: TokenKind) -> (r: Result<(), CalcError>)
        requires
            old(self).wf(),
        ensures
            final(self).s() == old(self).s(),
            old(self).current_token.kind != kind ==> r == Err::<(), CalcError>(
                CalcError::SyntaxError { expected: kind, actual: old(self).current_token.kind },
            ),
            old(self).current_token.kind == kind ==> match spec_eat(
                old(self).s(),
                old(self).lexer.pos as int,
            ) {
                Ok(_) => r matches Ok(u) && final(self).wf() && final(self).start@ == old(
                    self,
                ).lexer.pos,
                Err(e) => r == Err::<(), CalcError>(e),
            },
    {
        if self.current_token.kind == kind {
            let ghost st = self.lexer.pos as int;
            match self.lexer.get_next_token() {
                Ok(t) => {
                    self.current_token = t;
                    self.start = Ghost(st);
                    Ok(())
                },
                Err(e) => Err(e),
            }
        } else {
            Err(CalcError::SyntaxError { expected: kind, actual: self.current_token.kind })
        }
    }

    /// Parse one factor: an integer literal, or a parenthesized expression.
    pub fn factor(&mut self) -> (r: Result<Expr, CalcError>)
        requires
            old(self).wf(),
        ensures
            final(self).s() == old(self).s(),
            match spec_factor(old(self).s(), old(self).start@) {
                Ok((e, st1)) => r matches Ok(x) && x == e && final(self).wf() && final(self).start@
                    == st1,
                Err(er) => r matches Err(x) && x == er,
            },
        decreases self.s().len() - self.start@, 0int,
    {
        let kind = self.current_token.kind;
        if kind == TokenKind::Integer {
            let v = match parse_literal(self.current_token.text.as_slice()) {
                Ok(v) => v,
                Err(e) => {
                    return Err(e);
                },
            };
            match self.eat(TokenKind::Integer) {
                Ok(_) => {},
                Err(e) => {
                    return Err(e);
                },
            }
            Ok(Expr::Num(Num::new(v)))
        } else if kind == TokenKind::LParen {
            proof {
                lemma_spec_next_bounds(old(self).s(), old(self).start@);
            }
            match self.eat(TokenKind::LParen) {
                Ok(_) => {},
                Err(e) => {
                    return Err(e);
                },
            }
            let inner = match self.expr() {
                Ok(x) => x,
                Err(e) => {
                    return Err(e);
                },
            };
            match self.eat(TokenKind::RParen) {
                Ok(_) => {},
                Err(e) => {
                    return Err(e);
                },
            }
            Ok(inner)
        } else {
            Err(CalcError::SyntaxError { expected: TokenKind::Integer, actual: kind })
        }
    }

    /// Parse one term: a factor, then any run of `*` or `/` factors,
    /// folded left to right.
    pub fn term(&mut self) -> (r: Result<Expr, CalcError>)
        requires
            old(self).wf(),
        ensures
            final(self).s() == old(self).s(),
            match spec_term(old(self).s(), old(self).start@) {
                Ok((e, st1)) => r matches Ok(x) && x == e && final(self).wf() && final(self).start@
                    == st1,
                Err(er) => r matches Err(x) && x == er,
            },
        decreases self.s().len() - self.start@, 1int,
    {
        proof {
            lemma_factor_bounds(old(self).s(), old(self).start@);
        }
        let mut node = match self.factor() {
            Ok(x) => x,
            Err(e) => {
                return Err(e);
            },
        };
        while self.current_token.kind == TokenKind::Mul || self.current_token.kind
            == TokenKind::Div
            invariant
                self.wf(),
                self.s() == old(self).s(),
                old(self).start@ < self.start@,
                spec_term(old(self).s(), old(self).start@) == spec_term_tail(
                    self.s(),
                    node,
                    self.start@,
                ),
            decreases self.s().len() - self.start@,
        {
            let op = if self.current_token.kind == TokenKind::Mul {
                OpKind::Mul
            } else {
                OpKind::Div
            };
            let tk = self.current_token.kind;
            proof {
                lemma_spec_next_bounds(self.s(), self.start@);
            }
            match self.eat(tk) {
                Ok(_) => {},
                Err(e) => {
                    return Err(e);
                },
            }
            proof {
                lemma_factor_bounds(self.s(), self.start@);
            }
            let rhs = match self.factor() {
                Ok(x) => x,
                Err(e) => {
                    return Err(e);
                },
            };
            node = Expr::BinOp(BinOp::new(op, node, rhs));
        }
        Ok(node)
    }

    /// Parse one expression: a term, then any run of `+` or `-` terms,
    /// folded left to right.
    pub fn expr(&mut self) -> (r: Result<Expr, CalcError>)
        requires
            old(self).wf(),
        ensures
            final(self).s() == old(self).s(),
            match spec_expr(old(self).s(), old(self).start@) {
                Ok((e, st1)) => r matches Ok(x) && x == e && final(self).wf() && final(self).start@
                    == st1,
                Err(er) => r matches Err(x) && x == er,
            },
        decreases self.s().len() - self.start@, 2int,
    {
        proof {
            lemma_term_bounds(old(self).s(), old(self).start@);
        }
        let mut node = match self.term() {
            Ok(x) => x,
            Err(e) => {
                return Err(e);
            },
        };
        while self.current_token.kind == TokenKind::Plus || self.current_token.kind
            == TokenKind::Minus
            invariant
                self.wf(),
                self.s() == old(self).s(),
                old(self).start@ < self.start@,
                spec_expr(old(self).s(), old(self).start@) == spec_expr_tail(
                    self.s(),
                    node,
                    self.start@,
                ),
            decreases self.s().len() - self.start@,
        {
            let op = if self.current_token.kind == TokenKind::Plus {
                OpKind::Plus
            } else {
                OpKind::Minus
            };
            let tk = self.current_token.kind;
            proof {
                lemma_spec_next_bounds(self.s(), self.start@);
            }
            match self.eat(tk) {
                Ok(_) => {},
                Err(e) => {
                    return Err(e);
                },
            }
            proof {
                lemma_term_bounds(self.s(), self.start@);
            }
            let rhs = match self.term() {
                Ok(x) => x,
                Err(e) => {
                    return Err(e);
                },
            };
            node = Expr::BinOp(BinOp::new(op, node, rhs));
        }
        Ok(node)
    }
}

} // verus!
