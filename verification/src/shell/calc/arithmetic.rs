//! The grammar of the calculator:
//!
//! ```text
//! expression = sum
//! sum        = product "+" product / product
//! product    = atom "*" atom / atom
//! atom       = number / "(" sum ")"
//! number     = [0-9]+
//! ```
//!
//! The rules are tried in the order in which they are written, and the
//! first alternative that matches is taken. An input that does not match as
//! a whole is answered with the place up to which the rules have come and
//! with what they would have taken there.

use vstd::prelude::*;
use vstd::string::StringSliceAdditionalSpecFns;

use super::ast::digits_value;

verus! {

/// What the grammar takes: a digit or one of its four signs.
#[derive(Clone, Copy, Debug, PartialEq, Eq, Structural)]
pub enum Token {
    Digit,
    Plus,
    Star,
    Open,
    Close,
}

/// A set of tokens.
#[derive(Clone, Copy, Debug, PartialEq, Eq, Structural)]
pub struct Expected {
    pub digit: bool,
    pub plus: bool,
    pub star: bool,
    pub open: bool,
    pub close: bool,
}

impl Expected {
    /// The set without tokens.
    pub open spec fn spec_none() -> Expected {
        Expected { digit: false, plus: false, star: false, open: false, close: false }
    }

    /// The set with one token more.
    pub open spec fn spec_with(self, token: Token) -> Expected {
        match token {
            Token::Digit => Expected { digit: true, ..self },
            Token::Plus => Expected { plus: true, ..self },
            Token::Star => Expected { star: true, ..self },
            Token::Open => Expected { open: true, ..self },
            Token::Close => Expected { close: true, ..self },
        }
    }

    /// The tokens of the set as they are written in a message: the digits
    /// first, then the signs `+`, `*`, `(` and `)`, each where the set holds
    /// it.
    pub open spec fn spec_names(self) -> Seq<&'static str> {
        (if self.digit {
            seq!["[0-9]"]
        } else {
            Seq::<&'static str>::empty()
        }) + (if self.plus {
            seq!["+"]
        } else {
            Seq::<&'static str>::empty()
        }) + (if self.star {
            seq!["*"]
        } else {
            Seq::<&'static str>::empty()
        }) + (if self.open {
            seq!["("]
        } else {
            Seq::<&'static str>::empty()
        }) + (if self.close {
            seq![")"]
        } else {
            Seq::<&'static str>::empty()
        })
    }

    /// The set without tokens.
    pub fn none() -> (r: Expected)
        ensures
            r == Self::spec_none(),
    {
        Expected { digit: false, plus: false, star: false, open: false, close: false }
    }

    /// The set with one token more.
    pub fn with(self, token: Token) -> (r: Expected)
        ensures
            r == self.spec_with(token),
    {
        match token {
            Token::Digit => Expected { digit: true, ..self },
            Token::Plus => Expected { plus: true, ..self },
            Token::Star => Expected { star: true, ..self },
            Token::Open => Expected { open: true, ..self },
            Token::Close => Expected { close: true, ..self },
        }
    }

    /// Number of tokens of the set.
    pub fn len(&self) -> (r: usize)
        ensures
            r <= 5,
            r == 0 <==> *self == Self::spec_none(),
    {
        let mut count: usize = 0;
        if self.digit {
            count = count + 1;
        }
        if self.plus {
            count = count + 1;
        }
        if self.star {
            count = count + 1;
        }
        if self.open {
            count = count + 1;
        }
        if self.close {
            count = count + 1;
        }
        count
    }

    /// The tokens of the set as they are written in a message.
    pub fn names(&self) -> (r: Vec<&'static str>)
        ensures
            r@ == self.spec_names(),
            r@.len() <= 5,
    {
        let mut names: Vec<&'static str> = Vec::new();
        if self.digit {
            names.push("[0-9]");
        }
        if self.plus {
            names.push("+");
        }
        if self.star {
            names.push("*");
        }
        if self.open {
            names.push("(");
        }
        if self.close {
            names.push(")");
        }
        proof {
            assert(names@ =~= self.spec_names());
        }
        names
    }
}

/// How far the rules have come: the highest place at which a token was
/// missing, and the tokens that were missing there.
#[derive(Clone, Copy, Debug, PartialEq, Eq, Structural)]
pub struct ParseState {
    pub max_err_pos: usize,
    pub expected: Expected,
}

impl ParseState {
    /// The state before any rule has been tried.
    pub open spec fn spec_new() -> ParseState {
        ParseState { max_err_pos: 0, expected: Expected::spec_none() }
    }

    /// The state after a token was found missing at a place: a higher place
    /// than any before starts a new set, the same place adds to the set, and
    /// a lower place changes nothing.
    pub open spec fn spec_mark_failure(self, pos: usize, token: Token) -> ParseState {
        if pos > self.max_err_pos {
            ParseState { max_err_pos: pos, expected: Expected::spec_none().spec_with(token) }
        } else if pos == self.max_err_pos {
            ParseState { max_err_pos: pos, expected: self.expected.spec_with(token) }
        } else {
            self
        }
    }

    pub fn new() -> (r: ParseState)
        ensures
            r == Self::spec_new(),
    {
        ParseState { max_err_pos: 0, expected: Expected::none() }
    }

    /// Notes that a token was missing at a place.
    pub fn mark_failure(&mut self, pos: usize, token: Token)
        ensures
            *final(self) == old(self).spec_mark_failure(pos, token),
    {
        if pos > self.max_err_pos {
            self.max_err_pos = pos;
            self.expected = Expected::none().with(token);
        } else if pos == self.max_err_pos {
            self.expected = self.expected.with(token);
        }
    }
}

/// What a rule has come to: the place after what it has matched and the
/// value of that, or nothing where it has not matched; and whether every
/// number that was read and every sum and product that was formed on the
/// way fits 64 bits.
pub struct Outcome {
    pub matched: Option<(usize, int)>,
    pub state: ParseState,
    pub fits: bool,
}

/// Whether the byte is a decimal digit.
pub open spec fn is_digit(byte: u8) -> bool {
    48 <= byte <= 57
}

/// The place of the first byte from `pos` on that is no digit.
pub open spec fn digits_end(input: Seq<u8>, pos: usize) -> usize
    decreases input.len() - pos,
{
    if pos < input.len() && is_digit(input[pos as int]) && pos < usize::MAX {
        digits_end(input, (pos + 1) as usize)
    } else {
        pos
    }
}

/// The rule `number`: one digit or more. After the last digit a digit is
/// found missing.
pub open spec fn spec_number(input: Seq<u8>, state: ParseState, pos: usize) -> Outcome {
    let end = digits_end(input, pos);
    let marked = state.spec_mark_failure(end, Token::Digit);
    if end > pos {
        let value = digits_value(input.subrange(pos as int, end as int)).unwrap();
        Outcome { matched: Some((end, value)), state: marked, fits: value <= i64::MAX }
    } else {
        Outcome { matched: None, state: marked, fits: true }
    }
}

/// One sign at a place: the place after it where it is there, and the note
/// that it was missing where it is not.
pub open spec fn spec_sign(
    input: Seq<u8>,
    state: ParseState,
    pos: usize,
    sign: u8,
    token: Token,
) -> (Option<usize>, ParseState) {
    if pos < input.len() && input[pos as int] == sign {
        (Some((pos + 1) as usize), state)
    } else {
        (None, state.spec_mark_failure(pos, token))
    }
}

/// The rule `atom`: a number, or a sum in parentheses.
pub open spec fn spec_atom(input: Seq<u8>, state: ParseState, pos: usize) -> Outcome
    decreases input.len() - pos, 0int,
{
    let number = spec_number(input, state, pos);
    if number.matched.is_some() || !number.fits {
        number
    } else {
        let (open, opened) = spec_sign(input, number.state, pos, 40, Token::Open);
        match open {
            None => Outcome { matched: None, state: opened, fits: true },
            Some(inner) => if inner > input.len() || inner <= pos {
                Outcome { matched: None, state: opened, fits: true }
            } else {
                let sum = spec_sum(input, opened, inner);
                match sum.matched {
                    None => sum,
                    Some((after, value)) => if !sum.fits {
                        sum
                    } else {
                        let (close, closed) = spec_sign(input, sum.state, after, 41, Token::Close);
                        match close {
                            None => Outcome { matched: None, state: closed, fits: true },
                            Some(end) => Outcome {
                                matched: Some((end, value)),
                                state: closed,
                                fits: true,
                            },
                        }
                    },
                }
            },
        }
    }
}

/// The rule `product`: two atoms with a star between them, or one atom.
pub open spec fn spec_product(input: Seq<u8>, state: ParseState, pos: usize) -> Outcome
    decreases input.len() - pos, 1int,
{
    let left = spec_atom(input, state, pos);
    match left.matched {
        None => left,
        Some((after, l)) => if !left.fits {
            left
        } else {
            let (star, starred) = spec_sign(input, left.state, after, 42, Token::Star);
            match star {
                None => Outcome { matched: Some((after, l)), state: starred, fits: true },
                Some(next) => if next > input.len() || next <= pos {
                    Outcome { matched: Some((after, l)), state: starred, fits: true }
                } else {
                    let right = spec_atom(input, starred, next);
                    match right.matched {
                        None => Outcome {
                            matched: if right.fits {
                                Some((after, l))
                            } else {
                                None
                            },
                            state: right.state,
                            fits: right.fits,
                        },
                        Some((end, r)) => Outcome {
                            matched: Some((end, l * r)),
                            state: right.state,
                            fits: right.fits && i64::MIN <= l * r <= i64::MAX,
                        },
                    }
                },
            }
        },
    }
}

/// The rule `sum`: two products with a plus between them, or one product.
pub open spec fn spec_sum(input: Seq<u8>, state: ParseState, pos: usize) -> Outcome
    decreases input.len() - pos, 2int,
{
    let left = spec_product(input, state, pos);
    match left.matched {
        None => left,
        Some((after, l)) => if !left.fits {
            left
        } else {
            let (plus, added) = spec_sign(input, left.state, after, 43, Token::Plus);
            match plus {
                None => Outcome { matched: Some((after, l)), state: added, fits: true },
                Some(next) => if next > input.len() || next <= pos {
                    Outcome { matched: Some((after, l)), state: added, fits: true }
                } else {
                    let right = spec_product(input, added, next);
                    match right.matched {
                        None => Outcome {
                            matched: if right.fits {
                                Some((after, l))
                            } else {
                                None
                            },
                            state: right.state,
                            fits: right.fits,
                        },
                        Some((end, r)) => Outcome {
                            matched: Some((end, l + r)),
                            state: right.state,
                            fits: right.fits && i64::MIN <= l + r <= i64::MAX,
                        },
                    }
                },
            }
        },
    }
}

/// What a rule has come to when it was run.
#[derive(Clone, Copy, Debug, PartialEq, Eq, Structural)]
pub enum RuleResult {
    /// The rule has matched: the place after the match, and the value.
    Matched(usize, i64),
    /// The rule has not matched.
    Failed,
    /// A number, a sum or a product does not fit 64 bits.
    Overflow,
}

/// The run of a rule agrees with what the rule says.
pub open spec fn agrees(
    result: RuleResult,
    state: ParseState,
    outcome: Outcome,
    pos: usize,
    len: nat,
) -> bool {
    if !outcome.fits {
        result == RuleResult::Overflow
    } else {
        &&& state == outcome.state
        &&& match outcome.matched {
            None => result == RuleResult::Failed,
            Some((end, value)) => i64::MIN <= value <= i64::MAX && pos <= end <= len && result
                == RuleResult::Matched(end, value as i64),
        }
    }
}

/// Where the rules come is never beyond the end of the input.
pub open spec fn within(state: ParseState, len: nat) -> bool {
    state.max_err_pos <= len
}

/// The digits from a place on end where the digits from any digit among
/// them on end.
proof fn lemma_digits_end(input: Seq<u8>, pos: usize, i: usize)
    requires
        pos <= i <= input.len(),
        input.len() <= usize::MAX,
        forall|k: int| pos <= k < i ==> is_digit(#[trigger] input[k]),
    ensures
        digits_end(input, pos) == digits_end(input, i),
    decreases i - pos,
{
    if pos < i {
        lemma_digits_end(input, (pos + 1) as usize, i);
    }
}

/// Digits have a value.
proof fn lemma_digits_have_value(input: Seq<u8>, pos: int, end: int)
    requires
        0 <= pos <= end <= input.len(),
        forall|k: int| pos <= k < end ==> is_digit(#[trigger] input[k]),
    ensures
        digits_value(input.subrange(pos, end)).is_some(),
        digits_value(input.subrange(pos, end)).unwrap() >= 0,
        pos < end ==> digits_value(input.subrange(pos, end)).unwrap() == digits_value(
            input.subrange(pos, end - 1),
        ).unwrap() * 10 + (input[end - 1] - 48),
    decreases end - pos,
{
    if pos < end {
        lemma_digits_have_value(input, pos, end - 1);
        assert(input.subrange(pos, end).drop_last() =~= input.subrange(pos, end - 1));
        assert(input.subrange(pos, end).last() == input[end - 1]);
    }
}

/// Runs the rule `number`.
pub fn parse_number(input: &[u8], state: &mut ParseState, pos: usize) -> (r: RuleResult)
    requires
        pos <= input@.len(),
        within(*old(state), input@.len()),
    ensures
        agrees(r, *final(state), spec_number(input@, *old(state), pos), pos, input@.len()),
        r != RuleResult::Overflow ==> within(*final(state), input@.len()),
{
    let mut end: usize = pos;
    // The value of the digits so far, as long as it fits.
    let mut value: Option<i64> = Some(0);
    proof {
        lemma_digits_have_value(input@, pos as int, pos as int);
    }
    while end < input.len() && 48 <= input[end] && input[end] <= 57
        invariant
            pos <= end <= input@.len(),
            forall|k: int| pos <= k < end ==> is_digit(#[trigger] input@[k]),
            digits_value(input@.subrange(pos as int, end as int)).is_some(),
            value.is_some() <==> digits_value(input@.subrange(pos as int, end as int)).unwrap()
                <= i64::MAX,
            value.is_some() ==> value.unwrap() == digits_value(
                input@.subrange(pos as int, end as int),
            ).unwrap(),
        decreases input@.len() - end,
    {
        let digit = (input[end] - 48) as i64;
        proof {
            lemma_digits_have_value(input@, pos as int, end as int);
            lemma_digits_have_value(input@, pos as int, end as int + 1);
        }
        value = match value {
            Some(current) => match current.checked_mul(10) {
                Some(shifted) => shifted.checked_add(digit),
                None => None,
            },
            None => None,
        };
        end = end + 1;
    }
    proof {
        lemma_digits_end(input@, pos, end);
        lemma_digits_have_value(input@, pos as int, end as int);
    }
    if end > pos {
        match value {
            Some(value) => {
                state.mark_failure(end, Token::Digit);
                RuleResult::Matched(end, value)
            },
            None => RuleResult::Overflow,
        }
    } else {
        state.mark_failure(end, Token::Digit);
        RuleResult::Failed
    }
}

/// Looks for a sign at a place.
pub fn parse_sign(input: &[u8], state: &mut ParseState, pos: usize, sign: u8, token: Token) -> (r:
    Option<usize>)
    requires
        pos <= input@.len(),
        within(*old(state), input@.len()),
    ensures
        (r, *final(state)) == spec_sign(input@, *old(state), pos, sign, token),
        r.is_some() ==> r.unwrap() == pos + 1 && r.unwrap() <= input@.len(),
        within(*final(state), input@.len()),
{
    if pos < input.len() && input[pos] == sign {
        Some(pos + 1)
    } else {
        state.mark_failure(pos, token);
        None
    }
}

/// Runs the rule `atom`.
pub fn parse_atom(input: &[u8], state: &mut ParseState, pos: usize) -> (r: RuleResult)
    requires
        pos <= input@.len(),
        within(*old(state), input@.len()),
    ensures
        agrees(r, *final(state), spec_atom(input@, *old(state), pos), pos, input@.len()),
        r != RuleResult::Overflow ==> within(*final(state), input@.len()),
    decreases input@.len() - pos, 0int,
{
    match parse_number(input, state, pos) {
        RuleResult::Matched(end, value) => RuleResult::Matched(end, value),
        RuleResult::Overflow => RuleResult::Overflow,
        RuleResult::Failed => {
            match parse_sign(input, state, pos, 40, Token::Open) {
                None => RuleResult::Failed,
                Some(inner) => {
                    match parse_sum(input, state, inner) {
                        RuleResult::Failed => RuleResult::Failed,
                        RuleResult::Overflow => RuleResult::Overflow,
                        RuleResult::Matched(after, value) => {
                            match parse_sign(input, state, after, 41, Token::Close) {
                                None => RuleResult::Failed,
                                Some(end) => RuleResult::Matched(end, value),
                            }
                        },
                    }
                },
            }
        },
    }
}

/// Runs the rule `product`.
pub fn parse_product(input: &[u8], state: &mut ParseState, pos: usize) -> (r: RuleResult)
    requires
        pos <= input@.len(),
        within(*old(state), input@.len()),
    ensures
        agrees(r, *final(state), spec_product(input@, *old(state), pos), pos, input@.len()),
        r != RuleResult::Overflow ==> within(*final(state), input@.len()),
    decreases input@.len() - pos, 1int,
{
    match parse_atom(input, state, pos) {
        RuleResult::Failed => RuleResult::Failed,
        RuleResult::Overflow => RuleResult::Overflow,
        RuleResult::Matched(after, l) => {
            match parse_sign(input, state, after, 42, Token::Star) {
                None => RuleResult::Matched(after, l),
                Some(next) => {
                    match parse_atom(input, state, next) {
                        RuleResult::Failed => RuleResult::Matched(after, l),
                        RuleResult::Overflow => RuleResult::Overflow,
                        RuleResult::Matched(end, r) => match l.checked_mul(r) {
                            Some(value) => RuleResult::Matched(end, value),
                            None => RuleResult::Overflow,
                        },
                    }
                },
            }
        },
    }
}

/// Runs the rule `sum`.
pub fn parse_sum(input: &[u8], state: &mut ParseState, pos: usize) -> (r: RuleResult)
    requires
        pos <= input@.len(),
        within(*old(state), input@.len()),
    ensures
        agrees(r, *final(state), spec_sum(input@, *old(state), pos), pos, input@.len()),
        r != RuleResult::Overflow ==> within(*final(state), input@.len()),
    decreases input@.len() - pos, 2int,
{
    match parse_product(input, state, pos) {
        RuleResult::Failed => RuleResult::Failed,
        RuleResult::Overflow => RuleResult::Overflow,
        RuleResult::Matched(after, l) => {
            match parse_sign(input, state, after, 43, Token::Plus) {
                None => RuleResult::Matched(after, l),
                Some(next) => {
                    match parse_product(input, state, next) {
                        RuleResult::Failed => RuleResult::Matched(after, l),
                        RuleResult::Overflow => RuleResult::Overflow,
                        RuleResult::Matched(end, r) => match l.checked_add(r) {
                            Some(value) => RuleResult::Matched(end, value),
                            None => RuleResult::Overflow,
                        },
                    }
                },
            }
        },
    }
}

/// Runs the rule `expression`.
pub fn parse_expression(input: &[u8], state: &mut ParseState, pos: usize) -> (r: RuleResult)
    requires
        pos <= input@.len(),
        within(*old(state), input@.len()),
    ensures
        agrees(r, *final(state), spec_sum(input@, *old(state), pos), pos, input@.len()),
        r != RuleResult::Overflow ==> within(*final(state), input@.len()),
{
    parse_sum(input, state, pos)
}

/// Number of line feeds among the first `pos` bytes.
pub open spec fn line_feeds(input: Seq<u8>, pos: int) -> nat
    decreases pos,
{
    if pos <= 0 {
        0
    } else if input[pos - 1] == 10 {
        line_feeds(input, pos - 1) + 1
    } else {
        line_feeds(input, pos - 1)
    }
}

/// Number of bytes between the last line feed before `pos` and `pos`.
pub open spec fn bytes_in_line(input: Seq<u8>, pos: int) -> nat
    decreases pos,
{
    if pos <= 0 || input[pos - 1] == 10 {
        0
    } else {
        bytes_in_line(input, pos - 1) + 1
    }
}

/// The line and the column of a place, both counted from 1.
pub fn pos_to_line(input: &[u8], pos: usize) -> (r: (usize, usize))
    requires
        pos <= input@.len(),
        input@.len() < usize::MAX,
    ensures
        r.0 == line_feeds(input@, pos as int) + 1,
        r.1 == bytes_in_line(input@, pos as int) + 1,
{
    let mut line: usize = 1;
    let mut col: usize = 1;
    let mut i: usize = 0;
    while i < pos
        invariant
            i <= pos <= input@.len(),
            input@.len() < usize::MAX,
            line == line_feeds(input@, i as int) + 1,
            col == bytes_in_line(input@, i as int) + 1,
            line <= i + 1,
            col <= i + 1,
        decreases pos - i,
    {
        if input[i] == 10 {
            line = line + 1;
            col = 1;
        } else {
            col = col + 1;
        }
        i = i + 1;
    }
    (line, col)
}

/// Why an input is no expression: the place up to which the rules have
/// come, as offset, line and column, and what they would have taken there.
/// Where they would have taken nothing, the input should have ended.
#[derive(Clone, Copy, Debug, PartialEq, Eq, Structural)]
pub struct ParseError {
    pub line: usize,
    pub column: usize,
    pub offset: usize,
    pub expected: Expected,
}

/// The error for an input at which the rules have come to the given state.
pub open spec fn error_at(input: Seq<u8>, state: ParseState) -> ParseError {
    ParseError {
        line: (line_feeds(input, state.max_err_pos as int) + 1) as usize,
        column: (bytes_in_line(input, state.max_err_pos as int) + 1) as usize,
        offset: state.max_err_pos,
        expected: state.expected,
    }
}

/// Why the calculator has no result.
#[derive(Clone, Copy, Debug, PartialEq, Eq, Structural)]
pub enum CalcError {
    /// The input is no expression.
    Parse(ParseError),
    /// A number or a result does not fit 64 bits.
    MathError,
}

/// The value of the input as a whole, as the grammar gives it.
pub open spec fn spec_eval(input: Seq<u8>) -> Result<i64, CalcError> {
    let outcome = spec_sum(input, ParseState::spec_new(), 0);
    if !outcome.fits {
        Err(CalcError::MathError)
    } else {
        match outcome.matched {
            Some((end, value)) => if end == input.len() {
                Ok(value as i64)
            } else {
                Err(CalcError::Parse(error_at(input, outcome.state)))
            },
            None => Err(CalcError::Parse(error_at(input, outcome.state))),
        }
    }
}

/// Evaluates an expression: the value of the input where the input as a
/// whole is an expression whose numbers and results fit 64 bits.
pub fn eval(expr: &[u8]) -> (r: Result<i64, CalcError>)
    requires
        expr@.len() < usize::MAX,
    ensures
        r == spec_eval(expr@),
{
    let mut state = ParseState::new();
    match parse_expression(expr, &mut state, 0) {
        RuleResult::Overflow => Err(CalcError::MathError),
        RuleResult::Matched(pos, value) => {
            if pos == expr.len() {
                Ok(value)
            } else {
                let (line, column) = pos_to_line(expr, state.max_err_pos);
                Err(
                    CalcError::Parse(
                        ParseError {
                            line,
                            column,
                            offset: state.max_err_pos,
                            expected: state.expected,
                        },
                    ),
                )
            }
        },
        RuleResult::Failed => {
            let (line, column) = pos_to_line(expr, state.max_err_pos);
            Err(
                CalcError::Parse(
                    ParseError { line, column, offset: state.max_err_pos, expected: state.expected },
                ),
            )
        },
    }
}

/// Reads an expression and returns its value, or tells why the input is no
/// expression.
///
/// Every number of the input and every sum and product that is formed must
/// fit 64 bits.
pub fn expression(input: &str) -> (r: Result<i64, ParseError>)
    requires
        input.spec_bytes().len() < usize::MAX,
        spec_sum(input.spec_bytes(), ParseState::spec_new(), 0).fits,
    ensures
        spec_eval(input.spec_bytes()).is_ok() ==> r == Ok::<i64, ParseError>(
            spec_eval(input.spec_bytes()).unwrap(),
        ),
        spec_eval(input.spec_bytes()).is_err() ==> r == Err::<i64, ParseError>(
            error_at(
                input.spec_bytes(),
                spec_sum(input.spec_bytes(), ParseState::spec_new(), 0).state,
            ),
        ),
{
    let bytes = input.as_bytes();
    let mut state = ParseState::new();
    match parse_expression(bytes, &mut state, 0) {
        RuleResult::Matched(pos, value) => {
            if pos == bytes.len() {
                return Ok(value);
            }
        },
        _ => {},
    }
    let (line, column) = pos_to_line(bytes, state.max_err_pos);
    Err(ParseError { line, column, offset: state.max_err_pos, expected: state.expected })
}

} // verus!
