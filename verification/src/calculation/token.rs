//! The tokenizer: turns an expression string into lexical tokens.
//!
//! White space is stripped before scanning. A digit starts a numeric literal; a
//! `-` immediately followed by a digit is the literal's sign exactly when the
//! scanner stands in prefix position (at the start, after an operator, or
//! after an opening bracket). Every other recognized character maps to a
//! single token, and anything else is an `InvalidChar` error carrying its
//! 0-based position in the stripped source.

use crate::calculation::Operator;
use crate::decimal::dec_parse;
use rust_decimal::Decimal;
use vstd::prelude::*;
use vstd::slice::slice_subrange;

verus! {

/// One lexical token of the expression language.
#[derive(Clone, Copy, PartialEq, Debug)]
pub enum Token {
    Number(Decimal),
    Operator(Operator),
    Variable,
    LeftParenthese,
    RightParenthese,
}

/// A lexical failure, carrying the whitespace-stripped source it arose in.
#[derive(PartialEq, Eq, Debug)]
pub enum TokenizeError {
    /// A character that no token can start with.
    InvalidChar { serialized_string: String, char: char, position: usize },
    /// A numeric literal that scans (digits and dots) but denotes no decimal.
    MalformedNumber { serialized_string: String, position: usize },
}

/// A Unicode white-space character: the class `str::trim` strips and the
/// scanner ignores.
pub open spec fn is_space(c: char) -> bool {
    c == ' ' || c == '\t' || c == '\n' || c == '\r' || c == '\u{b}' || c == '\u{c}' || c
        == '\u{85}' || c == '\u{a0}' || c == '\u{1680}' || ('\u{2000}' <= c && c <= '\u{200a}')
        || c == '\u{2028}' || c == '\u{2029}' || c == '\u{202f}' || c == '\u{205f}' || c
        == '\u{3000}'
}

pub(crate) fn is_space_exec(c: char) -> (r: bool)
    ensures
        r == is_space(c),
{
    c == ' ' || c == '\t' || c == '\n' || c == '\r' || c == '\u{b}' || c == '\u{c}' || c
        == '\u{85}' || c == '\u{a0}' || c == '\u{1680}' || ('\u{2000}' <= c && c <= '\u{200a}')
        || c == '\u{2028}' || c == '\u{2029}' || c == '\u{202f}' || c == '\u{205f}' || c
        == '\u{3000}'
}

/// The source with every white-space character removed, the text the
/// scanner actually reads.
pub open spec fn strip_spaces(s: Seq<char>) -> Seq<char> {
    s.filter(|c: char| !is_space(c))
}

pub open spec fn is_digit(c: char) -> bool {
    '0' <= c && c <= '9'
}

/// A character a numeric literal keeps consuming: a digit or a decimal point.
pub open spec fn is_num_char(c: char) -> bool {
    is_digit(c) || c == '.'
}

/// The first index at or after `i` holding no digit and no decimal point.
pub open spec fn num_end(chars: Seq<char>, i: int) -> int
    decreases chars.len() - i,
{
    if 0 <= i < chars.len() && is_num_char(chars[i]) {
        num_end(chars, i + 1)
    } else {
        i
    }
}

proof fn lemma_num_end(chars: Seq<char>, i: int)
    requires
        0 <= i <= chars.len(),
    ensures
        i <= num_end(chars, i) <= chars.len(),
        forall|k: int| i <= k < num_end(chars, i) ==> is_num_char(chars[k]),
        num_end(chars, i) < chars.len() ==> !is_num_char(chars[num_end(chars, i)]),
    decreases chars.len() - i,
{
    if i < chars.len() && is_num_char(chars[i]) {
        lemma_num_end(chars, i + 1);
    }
}

/// Whether the previous token (if any) leaves the scanner in prefix
/// position, where a `-` may be the sign of a numeric literal.
pub open spec fn prefix_position(last: Option<Token>) -> bool {
    match last {
        None => true,
        Some(Token::Operator(_)) => true,
        Some(Token::LeftParenthese) => true,
        _ => false,
    }
}

/// Whether the character at `i` starts a numeric literal: a digit, or a `-`
/// immediately followed by a digit while in prefix position.
pub open spec fn starts_number(chars: Seq<char>, i: int, last: Option<Token>) -> bool {
    is_digit(chars[i]) || (chars[i] == '-' && i + 1 < chars.len() && is_digit(chars[i + 1])
        && prefix_position(last))
}

/// The token a single non-numeric character denotes, if any.
pub open spec fn char_token(c: char) -> Option<Token> {
    if c == 'x' {
        Some(Token::Variable)
    } else if c == '+' {
        Some(Token::Operator(Operator::Add))
    } else if c == '-' {
        Some(Token::Operator(Operator::Sub))
    } else if c == '*' {
        Some(Token::Operator(Operator::Mul))
    } else if c == '/' {
        Some(Token::Operator(Operator::Div))
    } else if c == '(' || c == '{' || c == '[' {
        Some(Token::LeftParenthese)
    } else if c == ')' || c == '}' || c == ']' {
        Some(Token::RightParenthese)
    } else {
        None
    }
}

/// What scanning yields: the token sequence, or the first lexical failure
/// (an unrecognized character, or a literal that denotes no decimal), each
/// with its position in the stripped source.
pub enum TokenScan {
    Toks(Seq<Token>),
    Invalid(char, int),
    BadNumber(int),
}

/// Prepends a token to a successful scan; a failure stays as it is.
pub open spec fn scan_cons(t: Token, rest: TokenScan) -> TokenScan {
    match rest {
        TokenScan::Toks(ts) => TokenScan::Toks(seq![t] + ts),
        _ => rest,
    }
}

/// The scan of the stripped source from position `i`, with `last` the most
/// recently produced token.
pub open spec fn spec_scan(chars: Seq<char>, i: int, last: Option<Token>) -> TokenScan
    decreases chars.len() - i,
        when 0 <= i <= chars.len()
    via spec_scan_decreases
{
    if i >= chars.len() {
        TokenScan::Toks(Seq::empty())
    } else if starts_number(chars, i, last) {
        let end = num_end(chars, if chars[i] == '-' { i + 1 } else { i });
        match dec_parse(chars.subrange(i, end)) {
            Some(d) => scan_cons(
                Token::Number(d),
                spec_scan(chars, end, Some(Token::Number(d))),
            ),
            None => TokenScan::BadNumber(i),
        }
    } else {
        match char_token(chars[i]) {
            Some(t) => scan_cons(t, spec_scan(chars, i + 1, Some(t))),
            None => TokenScan::Invalid(chars[i], i),
        }
    }
}

#[via_fn]
proof fn spec_scan_decreases(chars: Seq<char>, i: int, last: Option<Token>) {
    if i < chars.len() && starts_number(chars, i, last) {
        lemma_num_end(chars, i + 1);
    }
}

/// The tokens of a source string: its stripped form scanned from the start.
pub open spec fn spec_tokenize(s: Seq<char>) -> TokenScan {
    spec_scan(strip_spaces(s), 0, None)
}

/// The token most recently pushed, as the scanner's `last` argument.
pub open spec fn last_token(ts: Seq<Token>) -> Option<Token> {
    if ts.len() == 0 {
        None
    } else {
        Some(ts.last())
    }
}

/// Prepends already-produced tokens to the scan of the remaining input.
pub open spec fn scan_prepend(ts: Seq<Token>, rest: TokenScan) -> TokenScan {
    match rest {
        TokenScan::Toks(more) => TokenScan::Toks(ts + more),
        _ => rest,
    }
}

proof fn lemma_scan_prepend_push(ts: Seq<Token>, t: Token, rest: TokenScan)
    ensures
        scan_prepend(ts, scan_cons(t, rest)) == scan_prepend(ts.push(t), rest),
{
    match rest {
        TokenScan::Toks(more) => {
            assert(ts + (seq![t] + more) =~= ts.push(t) + more);
        },
        _ => {},
    }
}

proof fn lemma_strip_push(s: Seq<char>, c: char)
    ensures
        strip_spaces(s.push(c)) == if !is_space(c) {
            strip_spaces(s).push(c)
        } else {
            strip_spaces(s)
        },
{
    reveal(Seq::filter);
    assert(s.push(c).drop_last() =~= s);
    assert(s.push(c).last() == c);
}

proof fn lemma_strip_concat(a: Seq<char>, b: Seq<char>)
    ensures
        strip_spaces(a + b) == strip_spaces(a) + strip_spaces(b),
    decreases b.len(),
{
    if b.len() == 0 {
        assert(a + b =~= a);
        reveal(Seq::filter);
        assert(strip_spaces(b) =~= Seq::<char>::empty());
        assert(strip_spaces(a) + strip_spaces(b) =~= strip_spaces(a));
    } else {
        let c = b.last();
        lemma_strip_concat(a, b.drop_last());
        assert(a + b =~= (a + b.drop_last()).push(c));
        lemma_strip_push(a + b.drop_last(), c);
        lemma_strip_push(b.drop_last(), c);
        assert(b.drop_last().push(c) =~= b);
        if !is_space(c) {
            assert(strip_spaces(a) + strip_spaces(b.drop_last()).push(c) =~= (strip_spaces(a)
                + strip_spaces(b.drop_last())).push(c));
        }
    }
}

/// White space never changes the token sequence: what `token_list` reports
/// is a function of the whitespace-stripped text alone, so two sources that
/// strip to the same characters tokenize alike, errors and their positions
/// included.
pub proof fn lemma_whitespace_insensitive(s1: Seq<char>, s2: Seq<char>)
    requires
        strip_spaces(s1) == strip_spaces(s2),
    ensures
        spec_tokenize(s1) == spec_tokenize(s2),
{
}

/// Inserting one white-space character anywhere in a source leaves its
/// token sequence as it was.
pub proof fn lemma_whitespace_inserted(a: Seq<char>, c: char, b: Seq<char>)
    requires
        is_space(c),
    ensures
        spec_tokenize(a + seq![c] + b) == spec_tokenize(a + b),
{
    lemma_strip_concat(a, seq![c] + b);
    lemma_strip_concat(seq![c], b);
    lemma_strip_concat(a, b);
    assert(seq![c] =~= Seq::<char>::empty().push(c));
    lemma_strip_push(Seq::<char>::empty(), c);
    reveal(Seq::filter);
    assert(strip_spaces(Seq::<char>::empty()) =~= Seq::<char>::empty());
    assert(strip_spaces(seq![c]) =~= Seq::<char>::empty());
    assert((a + seq![c]) + b =~= a + (seq![c] + b));
    assert(a + seq![c] + b =~= a + (seq![c] + b));
    assert(strip_spaces(a) + (strip_spaces(seq![c]) + strip_spaces(b)) =~= strip_spaces(a)
        + strip_spaces(b));
    lemma_whitespace_insensitive(a + seq![c] + b, a + b);
}

fn is_digit_exec(c: char) -> (r: bool)
    ensures
        r == is_digit(c),
{
    '0' <= c && c <= '9'
}

fn is_num_char_exec(c: char) -> (r: bool)
    ensures
        r == is_num_char(c),
{
    ('0' <= c && c <= '9') || c == '.'
}

/// Relies on `String::from_iter` (through `Iterator::collect`): the string
/// holding exactly the given characters.
#[verifier::external_body]
pub(crate) fn chars_to_string(chars: &Vec<char>) -> (s: String)
    ensures
        s@ == chars@,
{
    chars.iter().collect()
}

/// Tokenizes an expression string: strips all white space, then scans the
/// remainder into tokens, or reports the first lexical failure with its
/// exact 0-based position in the stripped source.
pub fn token_list(unparsed: &str) -> (r: Result<Vec<Token>, TokenizeError>)
    ensures
        match spec_tokenize(unparsed@) {
            TokenScan::Toks(ts) => r matches Ok(v) && v@ == ts,
            TokenScan::Invalid(c, p) => r matches Err(TokenizeError::InvalidChar {
                serialized_string,
                char: ch,
                position,
            }) && serialized_string@ == strip_spaces(unparsed@) && ch == c && position == p,
            TokenScan::BadNumber(p) => r matches Err(TokenizeError::MalformedNumber {
                serialized_string,
                position,
            }) && serialized_string@ == strip_spaces(unparsed@) && position == p,
        },
{
    let mut chars: Vec<char> = Vec::new();
    for c in it: unparsed.chars()
        invariant
            it.seq() == unparsed@,
            chars@ == strip_spaces(it.seq().subrange(0, it.index())),
    {
        proof {
            let pfx = it.seq().subrange(0, it.index());
            assert(pfx.push(it.seq()[it.index()]) =~= it.seq().subrange(0, it.index() + 1));
            lemma_strip_push(pfx, it.seq()[it.index()]);
        }
        if !is_space_exec(c) {
            chars.push(c);
        }
    }
    proof {
        assert(unparsed@.subrange(0, unparsed@.len() as int) =~= unparsed@);
    }
    let n = chars.len();
    let mut tokens: Vec<Token> = Vec::new();
    let mut i: usize = 0;
    while i < n
        invariant
            i <= n,
            n == chars.len(),
            chars@ == strip_spaces(unparsed@),
            spec_tokenize(unparsed@) == scan_prepend(
                tokens@,
                spec_scan(chars@, i as int, last_token(tokens@)),
            ),
        decreases n - i,
    {
        let ghost last = last_token(tokens@);
        let c = chars[i];
        let prefix: bool = if tokens.len() == 0 {
            true
        } else {
            match tokens[tokens.len() - 1] {
                Token::Operator(_) => true,
                Token::LeftParenthese => true,
                _ => false,
            }
        };
        let negative = c == '-' && i + 1 < n && is_digit_exec(chars[i + 1]) && prefix;
        if is_digit_exec(c) || negative {
            assert(starts_number(chars@, i as int, last));
            let mut j: usize = if c == '-' {
                i + 1
            } else {
                i
            };
            let ghost scan_from = j as int;
            while j < n && is_num_char_exec(chars[j])
                invariant
                    scan_from <= j <= n,
                    n == chars.len(),
                    num_end(chars@, scan_from) == num_end(chars@, j as int),
                decreases n - j,
            {
                j += 1;
            }
            assert(num_end(chars@, j as int) == j as int);
            let lit = slice_subrange(chars.as_slice(), i, j);
            match crate::decimal::parse_decimal(lit) {
                Some(d) => {
                    proof {
                        lemma_scan_prepend_push(
                            tokens@,
                            Token::Number(d),
                            spec_scan(chars@, j as int, Some(Token::Number(d))),
                        );
                        assert(tokens@.push(Token::Number(d)).last() == Token::Number(d));
                    }
                    tokens.push(Token::Number(d));
                    i = j;
                },
                None => {
                    return Err(
                        TokenizeError::MalformedNumber {
                            serialized_string: chars_to_string(&chars),
                            position: i,
                        },
                    );
                },
            }
        } else {
            let next: Token = match c {
                'x' => Token::Variable,
                '+' => Token::Operator(Operator::Add),
                '-' => Token::Operator(Operator::Sub),
                '*' => Token::Operator(Operator::Mul),
                '/' => Token::Operator(Operator::Div),
                '(' | '{' | '[' => Token::LeftParenthese,
                ')' | '}' | ']' => Token::RightParenthese,
                _ => {
                    return Err(
                        TokenizeError::InvalidChar {
                            serialized_string: chars_to_string(&chars),
                            char: c,
                            position: i,
                        },
                    );
                },
            };
            proof {
                assert(char_token(chars@[i as int]) == Some(next));
                lemma_scan_prepend_push(tokens@, next, spec_scan(chars@, i as int + 1, Some(next)));
                assert(tokens@.push(next).last() == next);
            }
            tokens.push(next);
            i += 1;
        }
    }
    proof {
        assert(tokens@ + Seq::<Token>::empty() =~= tokens@);
    }
    Ok(tokens)
}

} // verus!
