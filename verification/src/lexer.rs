//! The lexer: scans a line of bytes into tokens on demand. Spaces are
//! skipped, a run of digits becomes one integer literal, each of the six
//! operator and parenthesis bytes becomes its own token, and a newline ends
//! the line as if the input were exhausted. Any other byte is a lexical
//! error.
use vstd::prelude::*;

use crate::errors::CalcError;
use crate::token::{Token, TokenKind};

verus! {

/// The bytes the grammar knows, by name.
pub const SPACE: u8 = 32;

pub const NEWLINE: u8 = 10;

pub const DIGIT_ZERO: u8 = 48;

pub const DIGIT_NINE: u8 = 57;

pub const PLUS_SIGN: u8 = 43;

pub const MINUS_SIGN: u8 = 45;

pub const STAR: u8 = 42;

pub const SLASH: u8 = 47;

pub const LEFT_PAREN: u8 = 40;

pub const RIGHT_PAREN: u8 = 41;

/// Is `b` a decimal digit?
pub open spec fn is_digit(b: u8) -> bool {
    DIGIT_ZERO <= b && b <= DIGIT_NINE
}

/// The first position at or after `i` that does not hold a space.
pub open spec fn skip_spaces(s: Seq<u8>, i: int) -> int
    decreases s.len() - i,
{
    if 0 <= i && i < s.len() && s[i] == SPACE {
        skip_spaces(s, i + 1)
    } else {
        i
    }
}

/// The first position at or after `i` that does not hold a digit.
pub open spec fn digit_run_end(s: Seq<u8>, i: int) -> int
    decreases s.len() - i,
{
    if 0 <= i && i < s.len() && is_digit(s[i]) {
        digit_run_end(s, i + 1)
    } else {
        i
    }
}

pub proof fn lemma_skip_spaces_bounds(s: Seq<u8>, i: int)
    requires
        0 <= i <= s.len(),
    ensures
        i <= skip_spaces(s, i) <= s.len(),
        skip_spaces(s, i) < s.len() ==> s[skip_spaces(s, i)] != SPACE,
    decreases s.len() - i,
{
    if i < s.len() && s[i] == SPACE {
        lemma_skip_spaces_bounds(s, i + 1);
    }
}

pub proof fn lemma_digit_run_end_bounds(s: Seq<u8>, i: int)
    requires
        0 <= i <= s.len(),
    ensures
        i <= digit_run_end(s, i) <= s.len(),
        forall|k: int| i <= k < digit_run_end(s, i) ==> is_digit(s[k]),
        digit_run_end(s, i) < s.len() ==> !is_digit(s[digit_run_end(s, i)]),
    decreases s.len() - i,
{
    if i < s.len() && is_digit(s[i]) {
        lemma_digit_run_end_bounds(s, i + 1);
    }
}

/// The next token of `s` scanned from position `i`: its kind, its text and
/// the position just past it, or `None` when the first unskipped byte is
/// not part of the language. At the end of the line the token is `Eof`,
/// indefinitely.
pub open spec fn spec_next(s: Seq<u8>, i: int) -> Option<(TokenKind, Seq<u8>, int)> {
    let j = skip_spaces(s, i);
    if !(0 <= j && j < s.len()) {
        Some((TokenKind::Eof, Seq::<u8>::empty(), j))
    } else if s[j] == NEWLINE {
        Some((TokenKind::Eof, Seq::<u8>::empty(), j))
    } else if is_digit(s[j]) {
        Some((TokenKind::Integer, s.subrange(j, digit_run_end(s, j)), digit_run_end(s, j)))
    } else if s[j] == PLUS_SIGN {
        Some((TokenKind::Plus, seq![PLUS_SIGN], j + 1))
    } else if s[j] == MINUS_SIGN {
        Some((TokenKind::Minus, seq![MINUS_SIGN], j + 1))
    } else if s[j] == STAR {
        Some((TokenKind::Mul, seq![STAR], j + 1))
    } else if s[j] == SLASH {
        Some((TokenKind::Div, seq![SLASH], j + 1))
    } else if s[j] == LEFT_PAREN {
        Some((TokenKind::LParen, seq![LEFT_PAREN], j + 1))
    } else if s[j] == RIGHT_PAREN {
        Some((TokenKind::RParen, seq![RIGHT_PAREN], j + 1))
    } else {
        None
    }
}

/// The error the lexer reports when `spec_next(s, i)` is `None`: the
/// offending byte itself.
pub open spec fn lex_error(s: Seq<u8>, i: int) -> CalcError {
    CalcError::UnknownCharacter(s[skip_spaces(s, i)])
}

pub proof fn lemma_spec_next_bounds(s: Seq<u8>, i: int)
    requires
        0 <= i <= s.len(),
    ensures
        match spec_next(s, i) {
            Some((kind, text, end)) => i <= end <= s.len() && (!(kind is Eof) ==> i + 1 <= end),
            None => true,
        },
{
    lemma_skip_spaces_bounds(s, i);
    let j = skip_spaces(s, i);
    if j < s.len() && is_digit(s[j]) {
        lemma_digit_run_end_bounds(s, j);
        assert(digit_run_end(s, j) == digit_run_end(s, j + 1));
    }
}

/// The whole token stream of `s` from position `i` on: the tokens in
/// order, up to and including the first `Eof`, paired with `None`; or,
/// when an unknown byte stops the scan first, the tokens in front of it
/// paired with that byte. Spaces leave no trace here: two lines that
/// differ only in spacing have the same stream.
pub open spec fn spec_tokens(s: Seq<u8>, i: int) -> (Seq<(TokenKind, Seq<u8>)>, Option<u8>)
    decreases s.len() - i,
        when 0 <= i <= s.len()
{
    match spec_next(s, i) {
        None => (Seq::<(TokenKind, Seq<u8>)>::empty(), Some(s[skip_spaces(s, i)])),
        Some((kind, text, j)) => {
            if kind is Eof {
                (seq![(kind, text)], None)
            } else {
                proof {
                    lemma_spec_next_bounds(s, i);
                }
                let rest = spec_tokens(s, j);
                (seq![(kind, text)] + rest.0, rest.1)
            }
        },
    }
}

/// What one scanning step does to the stream: the head token of the
/// streams of two lines agree as soon as the streams agree, and for any
/// token short of `Eof` the streams just past it agree again.
pub proof fn lemma_tokens_head(s1: Seq<u8>, i1: int, s2: Seq<u8>, i2: int)
    requires
        0 <= i1 <= s1.len(),
        0 <= i2 <= s2.len(),
        spec_tokens(s1, i1) == spec_tokens(s2, i2),
    ensures
        match (spec_next(s1, i1), spec_next(s2, i2)) {
            (None, None) => lex_error(s1, i1) == lex_error(s2, i2),
            (Some((k1, t1, j1)), Some((k2, t2, j2))) => k1 == k2 && t1 == t2 && (!(k1 is Eof)
                ==> spec_tokens(s1, j1) == spec_tokens(s2, j2)),
            _ => false,
        },
{
    lemma_spec_next_bounds(s1, i1);
    lemma_spec_next_bounds(s2, i2);
    match (spec_next(s1, i1), spec_next(s2, i2)) {
        (None, None) => {},
        (Some((k1, t1, j1)), Some((k2, t2, j2))) => {
            if !(k1 is Eof) && !(k2 is Eof) {
                let r1 = spec_tokens(s1, j1);
                let r2 = spec_tokens(s2, j2);
                assert(spec_tokens(s1, i1).0[0] == (k1, t1));
                assert(spec_tokens(s2, i2).0[0] == (k2, t2));
                assert(r1.0 =~= spec_tokens(s1, i1).0.subrange(1, spec_tokens(s1, i1).0.len() as int));
                assert(r2.0 =~= spec_tokens(s2, i2).0.subrange(1, spec_tokens(s2, i2).0.len() as int));
                assert(r1 == r2);
            } else {
                assert(spec_tokens(s1, i1).0[0] == (k1, t1));
                assert(spec_tokens(s2, i2).0[0] == (k2, t2));
            }
        },
        (None, Some((k2, t2, j2))) => {
            assert(spec_tokens(s1, i1).0.len() == 0);
            if k2 is Eof {
                assert(spec_tokens(s2, i2).0.len() == 1);
            } else {
                assert(spec_tokens(s2, i2).0.len() >= 1);
            }
        },
        (Some((k1, t1, j1)), None) => {
            assert(spec_tokens(s2, i2).0.len() == 0);
            if k1 is Eof {
                assert(spec_tokens(s1, i1).0.len() == 1);
            } else {
                assert(spec_tokens(s1, i1).0.len() >= 1);
            }
        },
    }
}

proof fn lemma_skip_spaces_push(s: Seq<u8>, i: int)
    requires
        0 <= i <= s.len(),
    ensures
        skip_spaces(s, i) < s.len() ==> skip_spaces(s.push(SPACE), i) == skip_spaces(s, i),
        skip_spaces(s, i) == s.len() ==> skip_spaces(s.push(SPACE), i) == s.len() + 1,
    decreases s.len() - i,
{
    let s2 = s.push(SPACE);
    if i < s.len() {
        assert(s2[i] == s[i]);
        if s[i] == SPACE {
            lemma_skip_spaces_push(s, i + 1);
        }
    } else {
        assert(s2[i] == SPACE);
        assert(skip_spaces(s2, i + 1) == i + 1);
    }
}

proof fn lemma_digit_run_end_push(s: Seq<u8>, i: int)
    requires
        0 <= i <= s.len(),
    ensures
        digit_run_end(s.push(SPACE), i) == digit_run_end(s, i),
    decreases s.len() - i,
{
    if i < s.len() && is_digit(s[i]) {
        lemma_digit_run_end_push(s, i + 1);
    }
}

/// A space appended to the line never changes its token stream: scanning
/// stops on it exactly where it stopped on the end of the line.
pub proof fn lemma_tokens_push_space(s: Seq<u8>, i: int)
    requires
        0 <= i <= s.len(),
    ensures
        spec_tokens(s.push(SPACE), i) == spec_tokens(s, i),
    decreases s.len() - i,
{
    let s2 = s.push(SPACE);
    lemma_skip_spaces_bounds(s, i);
    lemma_skip_spaces_push(s, i);
    let j = skip_spaces(s, i);
    if j == s.len() {
        assert(spec_next(s, i) == Some((TokenKind::Eof, Seq::<u8>::empty(), j)));
        assert(spec_next(s2, i) == Some((TokenKind::Eof, Seq::<u8>::empty(), j + 1)));
    } else {
        assert(s2[j] == s[j]);
        if is_digit(s[j]) {
            lemma_digit_run_end_push(s, j);
            lemma_digit_run_end_bounds(s, j);
            let e = digit_run_end(s, j);
            assert(s2.subrange(j, e) =~= s.subrange(j, e));
            assert(digit_run_end(s, j) == digit_run_end(s, j + 1));
            lemma_tokens_push_space(s, e);
        } else if s[j] == PLUS_SIGN || s[j] == MINUS_SIGN || s[j] == STAR || s[j] == SLASH || s[j]
            == LEFT_PAREN || s[j] == RIGHT_PAREN {
            lemma_tokens_push_space(s, j + 1);
        }
    }
}

proof fn lemma_skip_spaces_shift(s: Seq<u8>, i: int)
    requires
        0 <= i <= s.len(),
    ensures
        skip_spaces(seq![SPACE].add(s), i + 1) == skip_spaces(s, i) + 1,
    decreases s.len() - i,
{
    let s2 = seq![SPACE].add(s);
    assert(i < s.len() ==> s2[i + 1] == s[i]);
    if i < s.len() && s[i] == SPACE {
        lemma_skip_spaces_shift(s, i + 1);
    }
}

proof fn lemma_digit_run_end_shift(s: Seq<u8>, i: int)
    requires
        0 <= i <= s.len(),
    ensures
        digit_run_end(seq![SPACE].add(s), i + 1) == digit_run_end(s, i) + 1,
    decreases s.len() - i,
{
    let s2 = seq![SPACE].add(s);
    assert(i < s.len() ==> s2[i + 1] == s[i]);
    if i < s.len() && is_digit(s[i]) {
        lemma_digit_run_end_shift(s, i + 1);
    }
}

proof fn lemma_tokens_shift(s: Seq<u8>, i: int)
    requires
        0 <= i <= s.len(),
    ensures
        spec_tokens(seq![SPACE].add(s), i + 1) == spec_tokens(s, i),
    decreases s.len() - i,
{
    let s2 = seq![SPACE].add(s);
    lemma_skip_spaces_bounds(s, i);
    lemma_skip_spaces_shift(s, i);
    let j = skip_spaces(s, i);
    if j == s.len() {
        assert(spec_next(s, i) == Some((TokenKind::Eof, Seq::<u8>::empty(), j)));
        assert(spec_next(s2, i + 1) == Some((TokenKind::Eof, Seq::<u8>::empty(), j + 1)));
    } else {
        assert(s2[j + 1] == s[j]);
        if is_digit(s[j]) {
            lemma_digit_run_end_shift(s, j);
            lemma_digit_run_end_bounds(s, j);
            let e = digit_run_end(s, j);
            assert(s2.subrange(j + 1, e + 1) =~= s.subrange(j, e));
            assert(digit_run_end(s, j) == digit_run_end(s, j + 1));
            lemma_tokens_shift(s, e);
        } else if s[j] == PLUS_SIGN || s[j] == MINUS_SIGN || s[j] == STAR || s[j] == SLASH || s[j]
            == LEFT_PAREN || s[j] == RIGHT_PAREN {
            lemma_tokens_shift(s, j + 1);
        }
    }
}

/// A space prepended to the line never changes its token stream: the
/// scanner skips it, and every later token keeps its kind and text.
pub proof fn lemma_tokens_cons_space(s: Seq<u8>)
    ensures
        spec_tokens(seq![SPACE].add(s), 0) == spec_tokens(s, 0),
{
    let s2 = seq![SPACE].add(s);
    assert(s2[0] == SPACE);
    assert(skip_spaces(s2, 0) == skip_spaces(s2, 1));
    assert(spec_next(s2, 0) == spec_next(s2, 1));
    lemma_tokens_shift(s, 0);
    lemma_spec_next_bounds(s2, 1);
    match spec_next(s2, 1) {
        None => {
            assert(spec_tokens(s2, 0) == spec_tokens(s2, 1));
        },
        Some((kind, text, j)) => {
            assert(spec_tokens(s2, 0) == spec_tokens(s2, 1));
        },
    }
}

/// The lexer's cursor: the line and the current scan position. The cursor
/// only ever moves forward.
pub struct Lexer<'a> {
    pub text: &'a [u8],
    pub pos: usize,
}

impl<'a> Lexer<'a> {
    /// The cursor never stands past the end of the line.
    pub open spec fn wf(self) -> bool {
        self.pos <= self.text@.len()
    }

    /// A lexer at the start of the given line.
    pub fn new(text: &'a [u8]) -> (l: Lexer<'a>)
        ensures
            l.wf(),
            l.text@ == text@,
            l.pos == 0,
    {
        Lexer { text, pos: 0 }
    }

    /// Move the cursor one byte forward.
    pub fn advance(&mut self)
        requires
            old(self).wf(),
            old(self).pos < old(self).text@.len(),
        ensures
            final(self).wf(),
            final(self).text@ == old(self).text@,
            final(self).pos == old(self).pos + 1,
    {
        let n: usize = self.text.len();
        assert(self.pos < n);
        self.pos = self.pos + 1;
    }

    /// Move the cursor past every space under it.
    pub fn skip_space(&mut self)
        requires
            old(self).wf(),
        ensures
            final(self).wf(),
            final(self).text@ == old(self).text@,
            final(self).pos == skip_spaces(old(self).text@, old(self).pos as int),
    {
        while self.pos < self.text.len() && self.text[self.pos] == SPACE
            invariant
                self.wf(),
                self.text@ == old(self).text@,
                skip_spaces(self.text@, old(self).pos as int) == skip_spaces(
                    self.text@,
                    self.pos as int,
                ),
            decreases self.text@.len() - self.pos,
        {
            self.advance();
        }
    }

    /// Scan the digit run under the cursor greedily and return its text.
    pub fn integer_lexer(&mut self) -> (res: Vec<u8>)
        requires
            old(self).wf(),
        ensures
            final(self).wf(),
            final(self).text@ == old(self).text@,
            final(self).pos == digit_run_end(old(self).text@, old(self).pos as int),
            res@ == old(self).text@.subrange(old(self).pos as int, final(self).pos as int),
    {
        let mut res: Vec<u8> = Vec::new();
        while self.pos < self.text.len() && DIGIT_ZERO <= self.text[self.pos] && self.text[self.pos]
            <= DIGIT_NINE
            invariant
                self.wf(),
                self.text@ == old(self).text@,
                old(self).pos <= self.pos,
                digit_run_end(self.text@, old(self).pos as int) == digit_run_end(
                    self.text@,
                    self.pos as int,
                ),
                res@ == self.text@.subrange(old(self).pos as int, self.pos as int),
            decreases self.text@.len() - self.pos,
        {
            res.push(self.text[self.pos]);
            self.advance();
            proof {
                assert(res@ =~= self.text@.subrange(old(self).pos as int, self.pos as int));
            }
        }
        res
    }

    /// Scan and return the next token, advancing the cursor past it, or
    /// report the first byte that belongs to no token. At the end of the
    /// line, and on a newline, every call returns an `Eof` token and the
    /// cursor stays where it is.
    pub fn get_next_token(&mut self) -> (r: Result<Token, CalcError>)
        requires
            old(self).wf(),
        ensures
            final(self).wf(),
            final(self).text@ == old(self).text@,
            match spec_next(old(self).text@, old(self).pos as int) {
                Some((kind, text, end)) => r matches Ok(t) && t.kind == kind && t.text@ == text
                    && final(self).pos == end,
                None => r == Err::<Token, CalcError>(
                    lex_error(old(self).text@, old(self).pos as int),
                ),
            },
    {
        self.skip_space();
        if self.pos == self.text.len() {
            return Ok(Token::new(TokenKind::Eof, Vec::new()));
        }
        let b = self.text[self.pos];
        if DIGIT_ZERO <= b && b <= DIGIT_NINE {
            let text = self.integer_lexer();
            return Ok(Token::new(TokenKind::Integer, text));
        }
        if b == NEWLINE {
            return Ok(Token::new(TokenKind::Eof, Vec::new()));
        }
        let kind = if b == PLUS_SIGN {
            TokenKind::Plus
        } else if b == MINUS_SIGN {
            TokenKind::Minus
        } else if b == STAR {
            TokenKind::Mul
        } else if b == SLASH {
            TokenKind::Div
        } else if b == LEFT_PAREN {
            TokenKind::LParen
        } else if b == RIGHT_PAREN {
            TokenKind::RParen
        } else {
            return Err(CalcError::UnknownCharacter(b));
        };
        let mut text: Vec<u8> = Vec::new();
        text.push(b);
        self.advance();
        Ok(Token::new(kind, text))
    }
}

} // verus!
