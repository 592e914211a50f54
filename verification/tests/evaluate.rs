use calc::errors::CalcError;
use calc::evaluate;
use calc::token::TokenKind;

#[test]
fn single_number() {
    assert_eq!(evaluate(b"7"), Ok(7));
}

#[test]
fn zero() {
    assert_eq!(evaluate(b"0"), Ok(0));
}

#[test]
fn leading_zeros_are_kept() {
    assert_eq!(evaluate(b"007"), Ok(7));
}

#[test]
fn largest_literal() {
    assert_eq!(evaluate(b"2147483647"), Ok(i32::MAX));
}

#[test]
fn literal_above_i32_max_is_malformed() {
    assert_eq!(evaluate(b"2147483648"), Err(CalcError::MalformedLiteral));
}

#[test]
fn multiplication_binds_tighter_than_addition() {
    assert_eq!(evaluate(b"2 + 3 * 4"), Ok(14));
}

#[test]
fn parentheses_override_precedence() {
    assert_eq!(evaluate(b"(2 + 3) * 4"), Ok(20));
}

#[test]
fn subtraction_is_left_associative() {
    assert_eq!(evaluate(b"8 - 3 - 2"), Ok(3));
}

#[test]
fn division_is_left_associative() {
    assert_eq!(evaluate(b"8 / 4 / 2"), Ok(1));
}

#[test]
fn no_spaces() {
    assert_eq!(evaluate(b"2+3"), Ok(5));
}

#[test]
fn surrounding_spaces() {
    assert_eq!(evaluate(b" 2 + 3 "), Ok(5));
}

#[test]
fn wide_spaces() {
    assert_eq!(evaluate(b"2  +  3"), Ok(5));
}

#[test]
fn division_truncates() {
    assert_eq!(evaluate(b"7 / 2"), Ok(3));
}

#[test]
fn division_truncates_toward_zero() {
    assert_eq!(evaluate(b"(0 - 7) / 2"), Ok(-3));
}

#[test]
fn division_by_zero() {
    assert_eq!(evaluate(b"7 / 0"), Err(CalcError::DivisionByZero));
}

#[test]
fn unmatched_parenthesis() {
    assert_eq!(
        evaluate(b"(2 + 3"),
        Err(CalcError::SyntaxError { expected: TokenKind::RParen, actual: TokenKind::Eof })
    );
}

#[test]
fn missing_operand() {
    assert_eq!(
        evaluate(b"2 + "),
        Err(CalcError::SyntaxError { expected: TokenKind::Integer, actual: TokenKind::Eof })
    );
}

#[test]
fn unknown_character() {
    assert_eq!(evaluate(b"2 # 3"), Err(CalcError::UnknownCharacter(b'#')));
}

#[test]
fn empty_line_is_a_syntax_error() {
    assert_eq!(
        evaluate(b""),
        Err(CalcError::SyntaxError { expected: TokenKind::Integer, actual: TokenKind::Eof })
    );
}

#[test]
fn trailing_token_is_a_syntax_error() {
    assert_eq!(
        evaluate(b"2 5"),
        Err(CalcError::SyntaxError { expected: TokenKind::Eof, actual: TokenKind::Integer })
    );
}

#[test]
fn stray_closing_parenthesis() {
    assert_eq!(
        evaluate(b")"),
        Err(CalcError::SyntaxError { expected: TokenKind::Integer, actual: TokenKind::RParen })
    );
}

#[test]
fn newline_ends_the_line() {
    assert_eq!(evaluate(b"2+3\n4*5"), Ok(5));
}

#[test]
fn nested_parentheses() {
    assert_eq!(evaluate(b"((((5))))"), Ok(5));
}

#[test]
fn mixed_precedence_chain() {
    assert_eq!(evaluate(b"2 + 3 * 4 - 5"), Ok(9));
}

#[test]
fn addition_overflow() {
    assert_eq!(evaluate(b"2147483647 + 1"), Err(CalcError::Overflow));
}

#[test]
fn multiplication_overflow() {
    assert_eq!(evaluate(b"65536 * 65536"), Err(CalcError::Overflow));
}

#[test]
fn smallest_value_is_reachable() {
    assert_eq!(evaluate(b"0 - 2147483647 - 1"), Ok(i32::MIN));
}

#[test]
fn dividing_smallest_value_by_minus_one_overflows() {
    assert_eq!(evaluate(b"(0 - 2147483647 - 1) / (0 - 1)"), Err(CalcError::Overflow));
}

#[test]
fn same_input_same_result() {
    assert_eq!(evaluate(b"2 + 3 * 4"), evaluate(b"2 + 3 * 4"));
    assert_eq!(evaluate(b"7 / 0"), evaluate(b"7 / 0"));
    assert_eq!(evaluate(b"2 # 3"), evaluate(b"2 # 3"));
}
