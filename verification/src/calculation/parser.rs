//! The recursive-descent parser over a token cursor.
//!
//! Grammar, precedence low to high:
//! `expression := term (('+'|'-') term)*`,
//! `term := factor (('*'|'/') factor)*`,
//! `factor := Number | Variable | '(' expression ')'`.
//! Repetitions fold left, so `-` and `/` chains group to the left.

use crate::calculation::token::Token;
use crate::calculation::{Operator, Value};
use vstd::prelude::*;

verus! {

/// A syntactic failure while parsing a token sequence.
#[derive(PartialEq, Debug)]
pub enum CalculationParseError {
    /// The tokens ran out where one more was expected.
    UnexpectedEOL,
    /// A token that cannot stand in the current grammar position.
    UnexpectedToken(Token),
}

/// What parsing a `factor` from position `pos` yields, and the position the
/// cursor then stands at.
pub open spec fn spec_parse_factor(ts: Seq<Token>, pos: int) -> (Result<
    Value,
    CalculationParseError,
>, int)
    decreases ts.len() - pos, 0int,
    when 0 <= pos <= ts.len()
{
    if pos == ts.len() {
        (Err(CalculationParseError::UnexpectedEOL), pos)
    } else {
        match ts[pos] {
            Token::Number(n) => (Ok(Value::Num(n)), pos + 1),
            Token::Variable => (Ok(Value::Var), pos + 1),
            Token::LeftParenthese => {
                let inner = spec_parse_expression(ts, pos + 1);
                match inner.0 {
                    Ok(v) => {
                        if inner.1 < ts.len() {
                            match ts[inner.1] {
                                Token::RightParenthese => (Ok(v), inner.1 + 1),
                                tok => (
                                    Err(CalculationParseError::UnexpectedToken(tok)),
                                    inner.1 + 1,
                                ),
                            }
                        } else {
                            (Err(CalculationParseError::UnexpectedEOL), inner.1)
                        }
                    },
                    Err(e) => (Err(e), inner.1),
                }
            },
            tok => (Err(CalculationParseError::UnexpectedToken(tok)), pos + 1),
        }
    }
}

/// The left-folding repetition of `('*'|'/') factor` after an already
/// parsed left operand.
pub open spec fn spec_parse_term_loop(ts: Seq<Token>, pos: int, left: Value) -> (Result<
    Value,
    CalculationParseError,
>, int)
    decreases ts.len() - pos, 1int,
    when 0 <= pos <= ts.len()
{
    if pos < ts.len() && (ts[pos] matches Token::Operator(op) && (op is Mul || op is Div)) {
        match ts[pos] {
            Token::Operator(op) => {
                let nxt = spec_parse_factor(ts, pos + 1);
                match nxt.0 {
                    Ok(right) => {
                        let combined = Value::Calc {
                            left: Box::new(left),
                            op,
                            right: Box::new(right),
                        };
                        if pos < nxt.1 <= ts.len() {
                            spec_parse_term_loop(ts, nxt.1, combined)
                        } else {
                            (Ok(combined), nxt.1)
                        }
                    },
                    Err(e) => (Err(e), nxt.1),
                }
            },
            _ => (Ok(left), pos),
        }
    } else {
        (Ok(left), pos)
    }
}

/// What parsing a `term` from position `pos` yields.
pub open spec fn spec_parse_term(ts: Seq<Token>, pos: int) -> (Result<
    Value,
    CalculationParseError,
>, int)
    decreases ts.len() - pos, 2int,
    when 0 <= pos <= ts.len()
{
    let first = spec_parse_factor(ts, pos);
    match first.0 {
        Ok(left) => {
            if pos <= first.1 <= ts.len() {
                spec_parse_term_loop(ts, first.1, left)
            } else {
                first
            }
        },
        Err(_) => first,
    }
}

/// The left-folding repetition of `('+'|'-') term` after an already parsed
/// left operand.
pub open spec fn spec_parse_expr_loop(ts: Seq<Token>, pos: int, left: Value) -> (Result<
    Value,
    CalculationParseError,
>, int)
    decreases ts.len() - pos, 3int,
    when 0 <= pos <= ts.len()
{
    if pos < ts.len() && (ts[pos] matches Token::Operator(op) && (op is Add || op is Sub)) {
        match ts[pos] {
            Token::Operator(op) => {
                let nxt = spec_parse_term(ts, pos + 1);
                match nxt.0 {
                    Ok(right) => {
                        let combined = Value::Calc {
                            left: Box::new(left),
                            op,
                            right: Box::new(right),
                        };
                        if pos < nxt.1 <= ts.len() {
                            spec_parse_expr_loop(ts, nxt.1, combined)
                        } else {
                            (Ok(combined), nxt.1)
                        }
                    },
                    Err(e) => (Err(e), nxt.1),
                }
            },
            _ => (Ok(left), pos),
        }
    } else {
        (Ok(left), pos)
    }
}

/// What parsing a full `expression` from position `pos` yields.
pub open spec fn spec_parse_expression(ts: Seq<Token>, pos: int) -> (Result<
    Value,
    CalculationParseError,
>, int)
    decreases ts.len() - pos, 4int,
    when 0 <= pos <= ts.len()
{
    let first = spec_parse_term(ts, pos);
    match first.0 {
        Ok(left) => {
            if pos <= first.1 <= ts.len() {
                spec_parse_expr_loop(ts, first.1, left)
            } else {
                first
            }
        },
        Err(_) => first,
    }
}

/// The `'*'` or `'/'` standing at `p`, if any.
fn peek_muldiv(ts: &Vec<Token>, p: usize) -> (r: Option<Operator>)
    ensures
        match r {
            Some(op) => p < ts@.len() && ts@[p as int] == Token::Operator(op) && (op is Mul
                || op is Div),
            None => !(p < ts@.len() && (ts@[p as int] matches Token::Operator(op) && (op is Mul
                || op is Div))),
        },
{
    if p < ts.len() {
        match ts[p] {
            Token::Operator(Operator::Mul) => Some(Operator::Mul),
            Token::Operator(Operator::Div) => Some(Operator::Div),
            _ => None,
        }
    } else {
        None
    }
}

/// The `'+'` or `'-'` standing at `p`, if any.
fn peek_addsub(ts: &Vec<Token>, p: usize) -> (r: Option<Operator>)
    ensures
        match r {
            Some(op) => p < ts@.len() && ts@[p as int] == Token::Operator(op) && (op is Add
                || op is Sub),
            None => !(p < ts@.len() && (ts@[p as int] matches Token::Operator(op) && (op is Add
                || op is Sub))),
        },
{
    if p < ts.len() {
        match ts[p] {
            Token::Operator(Operator::Add) => Some(Operator::Add),
            Token::Operator(Operator::Sub) => Some(Operator::Sub),
            _ => None,
        }
    } else {
        None
    }
}

fn parse_factor(ts: &Vec<Token>, pos: usize) -> (r: (Result<Value, CalculationParseError>, usize))
    requires
        pos <= ts@.len(),
    ensures
        (r.0, r.1 as int) == spec_parse_factor(ts@, pos as int),
        r.1 <= ts@.len(),
        r.0 is Ok ==> pos < r.1,
    decreases ts@.len() - pos, 0int,
{
    if pos == ts.len() {
        return (Err(CalculationParseError::UnexpectedEOL), pos);
    }
    match ts[pos] {
        Token::Number(n) => (Ok(Value::Num(n)), pos + 1),
        Token::Variable => (Ok(Value::Var), pos + 1),
        Token::LeftParenthese => {
            let (inner, p2) = parse_expr(ts, pos + 1);
            match inner {
                Ok(v) => {
                    if p2 < ts.len() {
                        match ts[p2] {
                            Token::RightParenthese => (Ok(v), p2 + 1),
                            tok => (Err(CalculationParseError::UnexpectedToken(tok)), p2 + 1),
                        }
                    } else {
                        (Err(CalculationParseError::UnexpectedEOL), p2)
                    }
                },
                Err(e) => (Err(e), p2),
            }
        },
        tok => (Err(CalculationParseError::UnexpectedToken(tok)), pos + 1),
    }
}

fn parse_term(ts: &Vec<Token>, pos: usize) -> (r: (Result<Value, CalculationParseError>, usize))
    requires
        pos <= ts@.len(),
    ensures
        (r.0, r.1 as int) == spec_parse_term(ts@, pos as int),
        r.1 <= ts@.len(),
        r.0 is Ok ==> pos < r.1,
    decreases ts@.len() - pos, 2int,
{
    let n = ts.len();
    let (first, mut p) = parse_factor(ts, pos);
    let mut left = match first {
        Ok(v) => v,
        Err(e) => {
            return (Err(e), p);
        },
    };
    let mut look = peek_muldiv(ts, p);
    while look.is_some()
        invariant
            pos < p <= ts@.len(),
            n == ts@.len(),
            look == peek_muldiv_spec(ts@, p as int),
            spec_parse_term(ts@, pos as int) == spec_parse_term_loop(ts@, p as int, left),
        decreases ts@.len() - p,
    {
        let op = look.unwrap();
        let (rres, p2) = parse_factor(ts, p + 1);
        match rres {
            Ok(right) => {
                left = Value::Calc { left: Box::new(left), op, right: Box::new(right) };
                p = p2;
            },
            Err(e) => {
                return (Err(e), p2);
            },
        }
        look = peek_muldiv(ts, p);
    }
    (Ok(left), p)
}

/// The spec twin of `peek_muldiv`, to carry its answer through a loop.
pub open spec fn peek_muldiv_spec(ts: Seq<Token>, p: int) -> Option<Operator> {
    if 0 <= p < ts.len() {
        match ts[p] {
            Token::Operator(Operator::Mul) => Some(Operator::Mul),
            Token::Operator(Operator::Div) => Some(Operator::Div),
            _ => None,
        }
    } else {
        None
    }
}

/// The spec twin of `peek_addsub`, to carry its answer through a loop.
pub open spec fn peek_addsub_spec(ts: Seq<Token>, p: int) -> Option<Operator> {
    if 0 <= p < ts.len() {
        match ts[p] {
            Token::Operator(Operator::Add) => Some(Operator::Add),
            Token::Operator(Operator::Sub) => Some(Operator::Sub),
            _ => None,
        }
    } else {
        None
    }
}

fn parse_expr(ts: &Vec<Token>, pos: usize) -> (r: (Result<Value, CalculationParseError>, usize))
    requires
        pos <= ts@.len(),
    ensures
        (r.0, r.1 as int) == spec_parse_expression(ts@, pos as int),
        r.1 <= ts@.len(),
        r.0 is Ok ==> pos < r.1,
    decreases ts@.len() - pos, 4int,
{
    let n = ts.len();
    let (first, mut p) = parse_term(ts, pos);
    let mut left = match first {
        Ok(v) => v,
        Err(e) => {
            return (Err(e), p);
        },
    };
    let mut look = peek_addsub(ts, p);
    while look.is_some()
        invariant
            pos < p <= ts@.len(),
            n == ts@.len(),
            look == peek_addsub_spec(ts@, p as int),
            spec_parse_expression(ts@, pos as int) == spec_parse_expr_loop(ts@, p as int, left),
        decreases ts@.len() - p,
    {
        let op = look.unwrap();
        let (rres, p2) = parse_term(ts, p + 1);
        match rres {
            Ok(right) => {
                left = Value::Calc { left: Box::new(left), op, right: Box::new(right) };
                p = p2;
            },
            Err(e) => {
                return (Err(e), p2);
            },
        }
        look = peek_addsub(ts, p);
    }
    (Ok(left), p)
}

/// A cursor over an immutable token sequence; the position only advances.
pub struct Parser {
    tokens: Vec<Token>,
    pos: usize,
}

impl Parser {
    /// The tokens the cursor walks.
    pub closed spec fn toks(&self) -> Seq<Token> {
        self.tokens@
    }

    /// The cursor's position.
    pub closed spec fn at(&self) -> int {
        self.pos as int
    }

    /// The cursor stands inside (or just past) its tokens.
    pub closed spec fn wf(&self) -> bool {
        self.pos <= self.tokens@.len()
    }

    /// A fresh cursor standing at the first token.
    pub fn new(tokens: Vec<Token>) -> (p: Parser)
        ensures
            p.toks() == tokens@,
            p.at() == 0,
            p.wf(),
    {
        Parser { tokens, pos: 0 }
    }

    /// Parses one full expression from the cursor's position, advancing it
    /// past the tokens consumed; the result and final position are exactly
    /// those of the grammar's `expression` production.
    pub fn parse_expression(&mut self) -> (r: Result<Value, CalculationParseError>)
        requires
            old(self).wf(),
        ensures
            final(self).wf(),
            final(self).toks() == old(self).toks(),
            (r, final(self).at()) == spec_parse_expression(old(self).toks(), old(self).at()),
    {
        let (r, p) = parse_expr(&self.tokens, self.pos);
        self.pos = p;
        r
    }
}

} // verus!
