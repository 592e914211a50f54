use calc::ast::{BinOp, Expr, Num, OpKind};
use calc::errors::CalcError;
use calc::eval::Interpreter;
use calc::lexer::Lexer;
use calc::parser::{parse_literal, Parser};
use calc::token::TokenKind;

#[test]
fn lexer_scans_every_kind() {
    let mut lx = Lexer::new(b"12 + (3) - 4 * 5 / 6");
    let kinds = [
        TokenKind::Integer,
        TokenKind::Plus,
        TokenKind::LParen,
        TokenKind::Integer,
        TokenKind::RParen,
        TokenKind::Minus,
        TokenKind::Integer,
        TokenKind::Mul,
        TokenKind::Integer,
        TokenKind::Div,
        TokenKind::Integer,
        TokenKind::Eof,
    ];
    for k in kinds {
        let t = lx.get_next_token().unwrap();
        assert_eq!(t.kind, k);
    }
}

#[test]
fn lexer_keeps_the_matched_text() {
    let mut lx = Lexer::new(b"  042+");
    let t = lx.get_next_token().unwrap();
    assert_eq!(t.kind, TokenKind::Integer);
    assert_eq!(t.text, vec![b'0', b'4', b'2']);
    let t = lx.get_next_token().unwrap();
    assert_eq!(t.kind, TokenKind::Plus);
    assert_eq!(t.text, vec![b'+']);
}

#[test]
fn lexer_end_of_input_is_terminal() {
    let mut lx = Lexer::new(b"8");
    assert_eq!(lx.get_next_token().unwrap().kind, TokenKind::Integer);
    assert_eq!(lx.get_next_token().unwrap().kind, TokenKind::Eof);
    assert_eq!(lx.get_next_token().unwrap().kind, TokenKind::Eof);
    assert_eq!(lx.get_next_token().unwrap().kind, TokenKind::Eof);
}

#[test]
fn lexer_stops_at_a_newline() {
    let mut lx = Lexer::new(b"1\n2");
    assert_eq!(lx.get_next_token().unwrap().kind, TokenKind::Integer);
    assert_eq!(lx.get_next_token().unwrap().kind, TokenKind::Eof);
    assert_eq!(lx.get_next_token().unwrap().kind, TokenKind::Eof);
}

#[test]
fn lexer_reports_the_unknown_byte() {
    let mut lx = Lexer::new(b" @");
    match lx.get_next_token() {
        Err(e) => assert_eq!(e, CalcError::UnknownCharacter(b'@')),
        Ok(_) => panic!("an unknown byte must not scan to a token"),
    }
}

#[test]
fn literal_empty_is_malformed() {
    assert_eq!(parse_literal(b""), Err(CalcError::MalformedLiteral));
}

#[test]
fn literal_with_a_non_digit_is_malformed() {
    assert_eq!(parse_literal(b"4x2"), Err(CalcError::MalformedLiteral));
}

#[test]
fn literal_plain_value() {
    assert_eq!(parse_literal(b"42"), Ok(42));
}

#[test]
fn literal_at_the_i32_boundary() {
    assert_eq!(parse_literal(b"2147483647"), Ok(i32::MAX));
    assert_eq!(parse_literal(b"2147483648"), Err(CalcError::MalformedLiteral));
}

#[test]
fn parser_builds_a_left_leaning_tree() {
    let lexer = Lexer::new(b"8 - 3 - 2");
    let mut parser = Parser::new(lexer).unwrap();
    let ast = parser.expr().unwrap();
    match ast {
        Expr::BinOp(outer) => {
            assert_eq!(outer.op, OpKind::Minus);
            match (*outer.left, *outer.right) {
                (Expr::BinOp(inner), Expr::Num(two)) => {
                    assert_eq!(inner.op, OpKind::Minus);
                    assert_eq!(two.value, 2);
                    match (*inner.left, *inner.right) {
                        (Expr::Num(eight), Expr::Num(three)) => {
                            assert_eq!(eight.value, 8);
                            assert_eq!(three.value, 3);
                        },
                        _ => panic!("inner children should be literals"),
                    }
                },
                _ => panic!("the tree should lean left"),
            }
        },
        Expr::Num(_) => panic!("a subtraction should parse to an operation node"),
    }
}

#[test]
fn interpreter_walks_a_hand_built_tree() {
    let tree = Expr::BinOp(BinOp::new(
        OpKind::Mul,
        Expr::BinOp(BinOp::new(OpKind::Plus, Expr::Num(Num::new(2)), Expr::Num(Num::new(3)))),
        Expr::Num(Num::new(4)),
    ));
    let interpreter = Interpreter::new();
    assert_eq!(interpreter.visit(&tree), Ok(20));
}

#[test]
fn interpreter_reports_division_by_zero() {
    let tree = Expr::BinOp(BinOp::new(OpKind::Div, Expr::Num(Num::new(1)), Expr::Num(Num::new(0))));
    let interpreter = Interpreter::new();
    assert_eq!(interpreter.visit(&tree), Err(CalcError::DivisionByZero));
}
