//! The expression language: operators, the abstract syntax tree, and its
//! evaluator and re-serializer.

pub mod parser;
pub mod token;

use crate::calculation::parser::{
    spec_parse_expr_loop, spec_parse_expression, spec_parse_factor, spec_parse_term,
    spec_parse_term_loop, CalculationParseError,
};
use crate::calculation::token::Token;
use crate::decimal::{
    dec_add, dec_div, dec_is_zero, dec_mul, dec_normalize, dec_str, dec_sub, sat_add, sat_mul,
    sat_sub,
};
use rust_decimal::Decimal;
use vstd::prelude::*;

verus! {

/// One of the four binary operators an expression may use.
#[derive(Clone, Copy, PartialEq, Eq, Debug)]
pub enum Operator {
    Add,
    Sub,
    Mul,
    Div,
}

impl Operator {
    /// The canonical one-character rendering of the operator.
    pub open spec fn spec_symbol(self) -> char {
        match self {
            Operator::Add => '+',
            Operator::Sub => '-',
            Operator::Mul => '*',
            Operator::Div => '/',
        }
    }
}

/// A conversion expression: the free variable `x`, a numeric literal, or a
/// binary operation owning its two operands.
#[derive(PartialEq, Debug)]
pub enum Value {
    Var,
    Num(Decimal),
    Calc { left: Box<Value>, op: Operator, right: Box<Value> },
}

/// The value of an expression with `x` bound to `x`: `None` exactly when
/// some division's right operand evaluates to zero (or the division
/// overflows), and that failure propagates to the whole expression.
pub open spec fn spec_evaluate(v: Value, x: Decimal) -> Option<Decimal>
    decreases v,
{
    match v {
        Value::Var => Some(x),
        Value::Num(n) => Some(n),
        Value::Calc { left, op, right } => {
            match (spec_evaluate(*left, x), spec_evaluate(*right, x)) {
                (Some(l), Some(r)) => match op {
                    Operator::Add => Some(dec_add(l, r)),
                    Operator::Sub => Some(dec_sub(l, r)),
                    Operator::Mul => Some(dec_mul(l, r)),
                    Operator::Div => if dec_is_zero(r) {
                        None
                    } else {
                        dec_div(l, r)
                    },
                },
                _ => None,
            }
        },
    }
}

impl Value {
    /// Substitutes `x` for the free variable and folds the tree into a
    /// result; a division whose right operand is zero makes the whole
    /// evaluation fail.
    pub fn evaluate(&self, x: Decimal) -> (r: Option<Decimal>)
        ensures
            r == spec_evaluate(*self, x),
        decreases *self,
    {
        match self {
            Value::Var => Some(x),
            Value::Num(n) => Some(*n),
            Value::Calc { left, op, right } => {
                let l = match left.evaluate(x) {
                    Some(l) => l,
                    None => {
                        return None;
                    },
                };
                let r = match right.evaluate(x) {
                    Some(r) => r,
                    None => {
                        return None;
                    },
                };
                match op {
                    Operator::Add => Some(sat_add(l, r)),
                    Operator::Sub => Some(sat_sub(l, r)),
                    Operator::Mul => Some(sat_mul(l, r)),
                    Operator::Div => {
                        if crate::decimal::is_zero(&r) {
                            None
                        } else {
                            crate::decimal::checked_div(l, r)
                        }
                    },
                }
            },
        }
    }
}

/// The token serialization of an expression, with a sub-expression wrapped
/// in parentheses whenever it is itself a binary node.
pub open spec fn wrap_tokens(v: Value) -> Seq<Token>
    decreases v, 1int,
{
    if v is Calc {
        seq![Token::LeftParenthese] + to_tokens(v) + seq![Token::RightParenthese]
    } else {
        to_tokens(v)
    }
}

/// The token serialization of an expression: `x`, a literal, or the two
/// wrapped operands around their operator.
pub open spec fn to_tokens(v: Value) -> Seq<Token>
    decreases v, 0int,
{
    match v {
        Value::Var => seq![Token::Variable],
        Value::Num(n) => seq![Token::Number(n)],
        Value::Calc { left, op, right } => wrap_tokens(*left) + seq![Token::Operator(op)]
            + wrap_tokens(*right),
    }
}

/// The characters one token prints as: a literal prints normalized, an
/// operator with one space on each side, brackets bare.
pub open spec fn render_token(t: Token) -> Seq<char> {
    match t {
        Token::Number(n) => dec_str(dec_normalize(n)),
        Token::Operator(op) => seq![' ', op.spec_symbol(), ' '],
        Token::Variable => seq!['x'],
        Token::LeftParenthese => seq!['('],
        Token::RightParenthese => seq![')'],
    }
}

/// The concatenated rendering of a token sequence.
pub open spec fn render_tokens(ts: Seq<Token>) -> Seq<char>
    decreases ts.len(),
{
    if ts.len() == 0 {
        Seq::empty()
    } else {
        render_token(ts[0]) + render_tokens(ts.skip(1))
    }
}

proof fn lemma_render_concat(s1: Seq<Token>, s2: Seq<Token>)
    ensures
        render_tokens(s1 + s2) == render_tokens(s1) + render_tokens(s2),
    decreases s1.len(),
{
    if s1.len() == 0 {
        assert(s1 + s2 =~= s2);
        assert(render_tokens(s1) + render_tokens(s2) =~= render_tokens(s2));
    } else {
        assert((s1 + s2)[0] == s1[0]);
        assert((s1 + s2).skip(1) =~= s1.skip(1) + s2);
        lemma_render_concat(s1.skip(1), s2);
        assert(render_token(s1[0]) + (render_tokens(s1.skip(1)) + render_tokens(s2)) =~= (
        render_token(s1[0]) + render_tokens(s1.skip(1))) + render_tokens(s2));
    }
}

proof fn lemma_render_single(t: Token)
    ensures
        render_tokens(seq![t]) == render_token(t),
{
    assert(seq![t].len() == 1);
    assert(seq![t][0] == t);
    assert(seq![t].skip(1) =~= Seq::<Token>::empty());
    assert(render_tokens(Seq::<Token>::empty()) == Seq::<char>::empty());
    assert(render_tokens(seq![t]) == render_token(t) + Seq::<char>::empty());
    assert(render_token(t) + Seq::<char>::empty() =~= render_token(t));
}

impl Operator {
    /// The operator's rendering with one space on each side.
    fn padded_symbol(&self) -> (r: &'static str)
        ensures
            r@ == seq![' ', self.spec_symbol(), ' '],
    {
        match self {
            Operator::Add => {
                proof {
                    reveal_strlit(" + ");
                    assert(" + "@ =~= seq![' ', '+', ' ']);
                }
                " + "
            },
            Operator::Sub => {
                proof {
                    reveal_strlit(" - ");
                    assert(" - "@ =~= seq![' ', '-', ' ']);
                }
                " - "
            },
            Operator::Mul => {
                proof {
                    reveal_strlit(" * ");
                    assert(" * "@ =~= seq![' ', '*', ' ']);
                }
                " * "
            },
            Operator::Div => {
                proof {
                    reveal_strlit(" / ");
                    assert(" / "@ =~= seq![' ', '/', ' ']);
                }
                " / "
            },
        }
    }
}

impl Value {
    /// Re-serializes the expression: literals print normalized, every binary
    /// sub-expression is parenthesized, operators carry one space on each
    /// side. The result is exactly the rendering of `to_tokens`, so parsing
    /// it back rebuilds an equal tree.
    pub fn format(&self) -> (s: String)
        ensures
            s@ == render_tokens(to_tokens(*self)),
        decreases *self,
    {
        match self {
            Value::Var => {
                proof {
                    reveal_strlit("x");
                    assert("x"@ =~= seq!['x']);
                    lemma_render_single(Token::Variable);
                }
                String::from_str("x")
            },
            Value::Num(n) => {
                proof {
                    lemma_render_single(Token::Number(*n));
                }
                let normalized = crate::decimal::normalize(n);
                crate::decimal::to_text(&normalized)
            },
            Value::Calc { left, op, right } => {
                let mut s = String::new();
                proof {
                    reveal_strlit("(");
                    reveal_strlit(")");
                    assert("("@ =~= seq!['(']);
                    assert(")"@ =~= seq![')']);
                }
                let left_is_calc = match **left {
                    Value::Calc { .. } => true,
                    _ => false,
                };
                let left_text = left.format();
                if left_is_calc {
                    s.append("(");
                    s.append(left_text.as_str());
                    s.append(")");
                    proof {
                        lemma_render_single(Token::LeftParenthese);
                        lemma_render_single(Token::RightParenthese);
                        lemma_render_concat(seq![Token::LeftParenthese], to_tokens(**left));
                        lemma_render_concat(
                            seq![Token::LeftParenthese] + to_tokens(**left),
                            seq![Token::RightParenthese],
                        );
                        assert(wrap_tokens(**left) =~= (seq![Token::LeftParenthese] + to_tokens(
                            **left,
                        )) + seq![Token::RightParenthese]);
                        assert(s@ =~= render_tokens(wrap_tokens(**left)));
                    }
                } else {
                    s.append(left_text.as_str());
                    proof {
                        assert(s@ =~= render_tokens(wrap_tokens(**left)));
                    }
                }
                s.append(op.padded_symbol());
                proof {
                    lemma_render_single(Token::Operator(*op));
                    lemma_render_concat(wrap_tokens(**left), seq![Token::Operator(*op)]);
                    assert(s@ =~= render_tokens(wrap_tokens(**left) + seq![Token::Operator(*op)]));
                }
                let right_is_calc = match **right {
                    Value::Calc { .. } => true,
                    _ => false,
                };
                let right_text = right.format();
                if right_is_calc {
                    s.append("(");
                    s.append(right_text.as_str());
                    s.append(")");
                    proof {
                        lemma_render_single(Token::LeftParenthese);
                        lemma_render_single(Token::RightParenthese);
                        lemma_render_concat(seq![Token::LeftParenthese], to_tokens(**right));
                        lemma_render_concat(
                            seq![Token::LeftParenthese] + to_tokens(**right),
                            seq![Token::RightParenthese],
                        );
                        assert(wrap_tokens(**right) =~= (seq![Token::LeftParenthese] + to_tokens(
                            **right,
                        )) + seq![Token::RightParenthese]);
                    }
                } else {
                    s.append(right_text.as_str());
                }
                proof {
                    lemma_render_concat(
                        wrap_tokens(**left) + seq![Token::Operator(*op)],
                        wrap_tokens(**right),
                    );
                    assert(s@ =~= render_tokens(
                        (wrap_tokens(**left) + seq![Token::Operator(*op)]) + wrap_tokens(**right),
                    ));
                    assert((wrap_tokens(**left) + seq![Token::Operator(*op)]) + wrap_tokens(**right)
                        =~= to_tokens(*self));
                }
                s
            },
        }
    }
}

/// Whether the parser's `term` repetition stops in front of `b`: at the end
/// of input or at any token but `*` and `/`.
pub open spec fn term_stop(b: Seq<Token>) -> bool {
    b.len() == 0 || !(b[0] matches Token::Operator(op) && (op is Mul || op is Div))
}

/// Whether a serialized expression can be followed by `b` without the
/// parser reading past it: the end of input or a closing bracket.
pub open spec fn expr_stop(b: Seq<Token>) -> bool {
    b.len() == 0 || b[0] == Token::RightParenthese
}

proof fn lemma_factor_round(x: Value, a: Seq<Token>, b: Seq<Token>)
    ensures
        spec_parse_factor(a + wrap_tokens(x) + b, a.len() as int) == (
            Ok::<Value, CalculationParseError>(x),
            (a.len() + wrap_tokens(x).len()) as int,
        ),
    decreases x, 2int,
{
    let ts = a + wrap_tokens(x) + b;
    let pos = a.len() as int;
    assert(ts.len() == a.len() + wrap_tokens(x).len() + b.len());
    match x {
        Value::Calc { left, op, right } => {
            let inner = to_tokens(x);
            let w = wrap_tokens(x);
            assert(w == seq![Token::LeftParenthese] + inner + seq![Token::RightParenthese]);
            assert(w.len() == inner.len() + 2);
            assert(w[0] == Token::LeftParenthese);
            assert(ts[pos] == w[0]);
            let a2 = a + seq![Token::LeftParenthese];
            let b2 = seq![Token::RightParenthese] + b;
            assert(ts =~= a2 + inner + b2);
            assert(expr_stop(b2));
            lemma_expression_round(x, a2, b2);
            assert(a2.len() == pos + 1);
            let p2 = pos + 1 + inner.len();
            assert(spec_parse_expression(ts, pos + 1) == (
                Ok::<Value, CalculationParseError>(x),
                p2,
            ));
            assert(w[w.len() - 1] == Token::RightParenthese);
            assert(ts[p2] == w[w.len() - 1]);
            assert(p2 < ts.len());
            assert(spec_parse_factor(ts, pos) == (Ok::<Value, CalculationParseError>(x), p2 + 1));
        },
        Value::Var => {
            assert(wrap_tokens(x) == seq![Token::Variable]);
            assert(ts[pos] == Token::Variable);
        },
        Value::Num(n) => {
            assert(wrap_tokens(x) == seq![Token::Number(n)]);
            assert(ts[pos] == Token::Number(n));
        },
    }
}

proof fn lemma_term_wrapped(x: Value, a: Seq<Token>, b: Seq<Token>)
    requires
        term_stop(b),
    ensures
        spec_parse_term(a + wrap_tokens(x) + b, a.len() as int) == (
            Ok::<Value, CalculationParseError>(x),
            (a.len() + wrap_tokens(x).len()) as int,
        ),
    decreases x, 3int,
{
    lemma_factor_round(x, a, b);
    let ts = a + wrap_tokens(x) + b;
    let pos = a.len() as int;
    let pe = pos + wrap_tokens(x).len();
    assert(pos <= pe <= ts.len());
    if pe < ts.len() {
        assert(ts[pe] == b[0]);
    }
    assert(spec_parse_term_loop(ts, pe, x) == (Ok::<Value, CalculationParseError>(x), pe));
}

proof fn lemma_term_muldiv(v: Value, a: Seq<Token>, b: Seq<Token>)
    requires
        v matches Value::Calc { op, .. } && (op is Mul || op is Div),
        term_stop(b),
    ensures
        spec_parse_term(a + to_tokens(v) + b, a.len() as int) == (
            Ok::<Value, CalculationParseError>(v),
            (a.len() + to_tokens(v).len()) as int,
        ),
    decreases v, 0int,
{
    let ts = a + to_tokens(v) + b;
    let pos = a.len() as int;
    match v {
        Value::Calc { left, op, right } => {
            let wl = wrap_tokens(*left);
            let wr = wrap_tokens(*right);
            assert(to_tokens(v) == wl + seq![Token::Operator(op)] + wr);
            let b1 = seq![Token::Operator(op)] + wr + b;
            assert(ts =~= a + wl + b1);
            lemma_factor_round(*left, a, b1);
            let p1 = pos + wl.len();
            assert(spec_parse_factor(ts, pos) == (Ok::<Value, CalculationParseError>(*left), p1));
            assert(pos <= p1 <= ts.len());
            assert(ts[p1] == Token::Operator(op)) by {
                assert(to_tokens(v)[p1 - pos] == Token::Operator(op));
            }
            let a2 = a + wl + seq![Token::Operator(op)];
            assert(ts =~= a2 + wr + b);
            lemma_factor_round(*right, a2, b);
            let p2 = p1 + 1 + wr.len();
            assert(spec_parse_factor(ts, p1 + 1) == (
                Ok::<Value, CalculationParseError>(*right),
                p2,
            ));
            assert(p1 < p2 <= ts.len());
            if p2 < ts.len() {
                assert(ts[p2] == b[0]);
            }
            assert(spec_parse_term_loop(ts, p2, v) == (Ok::<Value, CalculationParseError>(v), p2));
            assert(spec_parse_term_loop(ts, p1, *left) == (
                Ok::<Value, CalculationParseError>(v),
                p2,
            ));
        },
        _ => {},
    }
}

proof fn lemma_expression_round(v: Value, a: Seq<Token>, b: Seq<Token>)
    requires
        expr_stop(b),
    ensures
        spec_parse_expression(a + to_tokens(v) + b, a.len() as int) == (
            Ok::<Value, CalculationParseError>(v),
            (a.len() + to_tokens(v).len()) as int,
        ),
    decreases v, 1int,
{
    let ts = a + to_tokens(v) + b;
    let pos = a.len() as int;
    assert(term_stop(b));
    match v {
        Value::Calc { left, op, right } => {
            if op is Mul || op is Div {
                lemma_term_muldiv(v, a, b);
                let pe = pos + to_tokens(v).len();
                assert(spec_parse_term(ts, pos) == (Ok::<Value, CalculationParseError>(v), pe));
                assert(pos <= pe <= ts.len());
                if pe < ts.len() {
                    assert(ts[pe] == b[0]);
                }
                assert(spec_parse_expr_loop(ts, pe, v) == (
                    Ok::<Value, CalculationParseError>(v),
                    pe,
                ));
            } else {
                let wl = wrap_tokens(*left);
                let wr = wrap_tokens(*right);
                assert(to_tokens(v) == wl + seq![Token::Operator(op)] + wr);
                let b1 = seq![Token::Operator(op)] + wr + b;
                assert(ts =~= a + wl + b1);
                assert(term_stop(b1));
                lemma_term_wrapped(*left, a, b1);
                let p1 = pos + wl.len();
                assert(spec_parse_term(ts, pos) == (Ok::<Value, CalculationParseError>(*left), p1));
                assert(pos <= p1 <= ts.len());
                assert(ts[p1] == Token::Operator(op)) by {
                    assert(to_tokens(v)[p1 - pos] == Token::Operator(op));
                }
                let a2 = a + wl + seq![Token::Operator(op)];
                assert(ts =~= a2 + wr + b);
                lemma_term_wrapped(*right, a2, b);
                let p2 = p1 + 1 + wr.len();
                assert(spec_parse_term(ts, p1 + 1) == (
                    Ok::<Value, CalculationParseError>(*right),
                    p2,
                ));
                assert(p1 < p2 <= ts.len());
                if p2 < ts.len() {
                    assert(ts[p2] == b[0]);
                }
                assert(spec_parse_expr_loop(ts, p2, v) == (
                    Ok::<Value, CalculationParseError>(v),
                    p2,
                ));
                assert(spec_parse_expr_loop(ts, p1, *left) == (
                    Ok::<Value, CalculationParseError>(v),
                    p2,
                ));
            }
        },
        Value::Var => {
            assert(to_tokens(v) == seq![Token::Variable]);
            assert(ts[pos] == Token::Variable);
            assert(spec_parse_factor(ts, pos) == (Ok::<Value, CalculationParseError>(v), pos + 1));
            if pos + 1 < ts.len() {
                assert(ts[pos + 1] == b[0]);
            }
            assert(spec_parse_term(ts, pos) == (Ok::<Value, CalculationParseError>(v), pos + 1));
        },
        Value::Num(n) => {
            assert(to_tokens(v) == seq![Token::Number(n)]);
            assert(ts[pos] == Token::Number(n));
            assert(spec_parse_factor(ts, pos) == (Ok::<Value, CalculationParseError>(v), pos + 1));
            if pos + 1 < ts.len() {
                assert(ts[pos + 1] == b[0]);
            }
            assert(spec_parse_term(ts, pos) == (Ok::<Value, CalculationParseError>(v), pos + 1));
        },
    }
}

/// Round trip: re-serializing an expression tree and re-parsing what was
/// written yields a structurally equal tree. Serialization is exactly
/// `to_tokens` — the token sequence whose rendering `format` prints — and
/// parsing those tokens from the start consumes them all and rebuilds `v`.
pub proof fn lemma_round_trip(v: Value)
    ensures
        spec_parse_expression(to_tokens(v), 0) == (
            Ok::<Value, CalculationParseError>(v),
            to_tokens(v).len() as int,
        ),
{
    lemma_expression_round(v, Seq::empty(), Seq::empty());
    assert(Seq::<Token>::empty() + to_tokens(v) + Seq::<Token>::empty() =~= to_tokens(v));
}

/// Any division by zero inside an expression poisons the whole evaluation:
/// whenever the right operand of a division evaluates to zero, the division
/// node — and with it every expression containing it — evaluates to `None`,
/// never to a substitute value.
pub proof fn lemma_division_by_zero_fails(l: Value, r: Value, op: Operator, x: Decimal)
    requires
        op is Div,
        spec_evaluate(r, x) matches Some(z) && dec_is_zero(z),
    ensures
        spec_evaluate(Value::Calc { left: Box::new(l), op, right: Box::new(r) }, x) is None,
{
}

} // verus!
