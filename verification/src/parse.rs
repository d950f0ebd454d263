//! The conversion graph: built from a definition document, queried by a
//! minimal-hop path search that chains edge expressions.
//!
//! A document holds one relation per line, `origin -> destination: expr`,
//! with `#` starting a comment. Unit names get stable integer identities;
//! parallel edges are kept; no reverse edge is ever implied.

use crate::calculation::parser::{spec_parse_expression, CalculationParseError, Parser};
use crate::calculation::token::{
    is_space, is_space_exec, strip_spaces, token_list, TokenScan, Token, TokenizeError,
    spec_tokenize,
};
use crate::calculation::{spec_evaluate, Value};
use rust_decimal::Decimal;
use vstd::prelude::*;

verus! {

/// A failure while building the graph from a definition document, tagged
/// with the 0-based index of the offending line.
#[derive(PartialEq, Debug)]
pub struct ParseError {
    pub line: usize,
    pub error_kind: ParseErrorKind,
}

/// What went wrong on a definition line.
#[derive(PartialEq, Debug)]
pub enum ParseErrorKind {
    MissingArrow,
    MissingColon,
    Tokenizer(TokenizeError),
    CalculationParseError(CalculationParseError),
}

/// A failure while resolving a conversion between two units.
#[derive(PartialEq, Eq, Debug)]
pub enum ConversionError<'a> {
    NoPathFound,
    CalculationFailed,
    EndDoesntExist { end: &'a str },
}

/// The first index at or after `i` holding `c`, or the length if none does.
pub open spec fn find_char(s: Seq<char>, c: char, i: int) -> int
    decreases s.len() - i,
{
    if 0 <= i < s.len() {
        if s[i] == c {
            i
        } else {
            find_char(s, c, i + 1)
        }
    } else {
        s.len() as int
    }
}

proof fn lemma_find_char(s: Seq<char>, c: char, i: int)
    requires
        0 <= i <= s.len(),
    ensures
        i <= find_char(s, c, i) <= s.len(),
        forall|j: int| i <= j < find_char(s, c, i) ==> s[j] != c,
        find_char(s, c, i) < s.len() ==> s[find_char(s, c, i)] == c,
    decreases s.len() - i,
{
    if i < s.len() && s[i] != c {
        lemma_find_char(s, c, i + 1);
    }
}

/// The index after the leading white space, scanning from `i`.
pub open spec fn skip_spaces(s: Seq<char>, i: int) -> int
    decreases s.len() - i,
{
    if 0 <= i < s.len() && is_space(s[i]) {
        skip_spaces(s, i + 1)
    } else {
        i
    }
}

proof fn lemma_skip_spaces(s: Seq<char>, i: int)
    requires
        0 <= i <= s.len(),
    ensures
        i <= skip_spaces(s, i) <= s.len(),
        forall|j: int| i <= j < skip_spaces(s, i) ==> is_space(s[j]),
        skip_spaces(s, i) < s.len() ==> !is_space(s[skip_spaces(s, i)]),
    decreases s.len() - i,
{
    if i < s.len() && is_space(s[i]) {
        lemma_skip_spaces(s, i + 1);
    }
}

/// The index before the trailing white space, scanning down from `j`.
pub open spec fn rskip_spaces(s: Seq<char>, j: int) -> int
    decreases j,
{
    if 0 < j <= s.len() && is_space(s[j - 1]) {
        rskip_spaces(s, j - 1)
    } else {
        j
    }
}

proof fn lemma_rskip_spaces(s: Seq<char>, j: int)
    requires
        0 <= j <= s.len(),
    ensures
        0 <= rskip_spaces(s, j) <= j,
        forall|k: int| rskip_spaces(s, j) <= k < j ==> is_space(s[k]),
        rskip_spaces(s, j) > 0 ==> !is_space(s[rskip_spaces(s, j) - 1]),
    decreases j,
{
    if 0 < j && is_space(s[j - 1]) {
        lemma_rskip_spaces(s, j - 1);
    }
}

/// The text with surrounding white space removed.
pub open spec fn spec_trim(s: Seq<char>) -> Seq<char> {
    let a = skip_spaces(s, 0);
    let b = rskip_spaces(s, s.len() as int);
    if a <= b {
        s.subrange(a, b)
    } else {
        Seq::empty()
    }
}

/// Whether `pat` occurs in `s` starting at `i`.
pub open spec fn match_at(s: Seq<char>, pat: Seq<char>, i: int) -> bool {
    0 <= i && i + pat.len() <= s.len() && s.subrange(i, i + pat.len()) == pat
}

/// The first index at or after `i` where `pat` occurs, or `-1` if nowhere.
pub open spec fn find_sub(s: Seq<char>, pat: Seq<char>, i: int) -> int
    decreases s.len() - i,
    when 0 <= i && pat.len() >= 1
{
    if i + pat.len() <= s.len() {
        if match_at(s, pat, i) {
            i
        } else {
            find_sub(s, pat, i + 1)
        }
    } else {
        -1
    }
}

/// The line with its surroundings trimmed and any `#` comment cut off, as
/// the graph builder reads it.
pub open spec fn clean_line(line: Seq<char>) -> Seq<char> {
    let t = spec_trim(line);
    t.subrange(0, find_char(t, '#', 0))
}

/// A sequence of character vectors seen as a sequence of char sequences.
pub open spec fn lines_view(lines: Seq<Vec<char>>) -> Seq<Seq<char>> {
    lines.map_values(|l: Vec<char>| l@)
}

/// The document split at newline characters, every segment kept.
pub open spec fn split_lines(s: Seq<char>) -> Seq<Seq<char>>
    decreases s.len(),
    via split_lines_decreases
{
    let k = find_char(s, '\n', 0);
    if k == s.len() {
        seq![s]
    } else {
        seq![s.subrange(0, k)] + split_lines(s.subrange(k + 1, s.len() as int))
    }
}

#[via_fn]
proof fn split_lines_decreases(s: Seq<char>) {
    lemma_find_char(s, '\n', 0);
}

proof fn lemma_find_sub_props(s: Seq<char>, pat: Seq<char>, i: int)
    requires
        0 <= i,
        pat.len() >= 1,
    ensures
        find_sub(s, pat, i) == -1 || (i <= find_sub(s, pat, i) && match_at(
            s,
            pat,
            find_sub(s, pat, i),
        )),
    decreases s.len() - i,
{
    if i + pat.len() <= s.len() && !match_at(s, pat, i) {
        lemma_find_sub_props(s, pat, i + 1);
    }
}

/// The literal `" -> "` that separates origin from destination.
pub open spec fn arrow_pat() -> Seq<char> {
    seq![' ', '-', '>', ' ']
}

/// The literal `": "` that separates destination from expression.
pub open spec fn colon_pat() -> Seq<char> {
    seq![':', ' ']
}

/// The names of a vector of unit strings as character sequences.
pub open spec fn names_view_of(names: Seq<String>) -> Seq<Seq<char>> {
    names.map_values(|s: String| s@)
}

/// No unit name occurs twice: identities are stable.
pub open spec fn distinct_names(names: Seq<Seq<char>>) -> bool {
    forall|p: int, q: int| 0 <= p < q < names.len() ==> names[p] != names[q]
}

/// The identity of a unit name: the first index holding it, or the length
/// when the name is new.
pub open spec fn name_index(names: Seq<Seq<char>>, name: Seq<char>, i: int) -> int
    decreases names.len() - i,
{
    if 0 <= i < names.len() {
        if names[i] == name {
            i
        } else {
            name_index(names, name, i + 1)
        }
    } else {
        names.len() as int
    }
}

proof fn lemma_name_index(names: Seq<Seq<char>>, name: Seq<char>, i: int)
    requires
        0 <= i <= names.len(),
    ensures
        i <= name_index(names, name, i) <= names.len(),
        forall|j: int| i <= j < name_index(names, name, i) ==> names[j] != name,
        name_index(names, name, i) < names.len() ==> names[name_index(names, name, i)] == name,
    decreases names.len() - i,
{
    if i < names.len() && names[i] != name {
        lemma_name_index(names, name, i + 1);
    }
}

/// The outcome of building a graph: the unit names in order of first
/// mention and the edges in declaration order, or the first line failure.
pub enum BuildOutcome {
    Built { names: Seq<Seq<char>>, edges: Seq<(int, int, Value)> },
    Failed { line: int, fail: LineFail },
}

/// The per-line failure cases, with what the error value must report.
pub enum LineFail {
    NoArrow,
    NoColon,
    BadChar { ch: char, position: int, stripped: Seq<char> },
    BadNumber { position: int, stripped: Seq<char> },
    Syntax { err: CalculationParseError },
}

/// Builds the graph line by line from `i` on: blank and all-comment lines
/// are skipped, every other line must read `origin -> destination: expr`,
/// and the first failure aborts the whole build with its line index.
pub open spec fn spec_build_lines(
    lines: Seq<Seq<char>>,
    i: int,
    names: Seq<Seq<char>>,
    edges: Seq<(int, int, Value)>,
) -> BuildOutcome
    decreases lines.len() - i,
    when 0 <= i <= lines.len()
{
    if i == lines.len() {
        BuildOutcome::Built { names, edges }
    } else {
        let line = clean_line(lines[i]);
        if line.len() == 0 {
            spec_build_lines(lines, i + 1, names, edges)
        } else {
            let ka = find_sub(line, arrow_pat(), 0);
            if ka < 0 {
                BuildOutcome::Failed { line: i, fail: LineFail::NoArrow }
            } else {
                let rest = line.subrange(ka + 4, line.len() as int);
                let kc = find_sub(rest, colon_pat(), 0);
                if kc < 0 {
                    BuildOutcome::Failed { line: i, fail: LineFail::NoColon }
                } else {
                    let origin = spec_trim(line.subrange(0, ka));
                    let dest = spec_trim(rest.subrange(0, kc));
                    let conv = spec_trim(rest.subrange(kc + 2, rest.len() as int));
                    let io = name_index(names, origin, 0);
                    let names1 = if io == names.len() {
                        names.push(origin)
                    } else {
                        names
                    };
                    let id = name_index(names1, dest, 0);
                    let names2 = if id == names1.len() {
                        names1.push(dest)
                    } else {
                        names1
                    };
                    match spec_tokenize(conv) {
                        TokenScan::Invalid(c, p) => BuildOutcome::Failed {
                            line: i,
                            fail: LineFail::BadChar {
                                ch: c,
                                position: p,
                                stripped: strip_spaces(conv),
                            },
                        },
                        TokenScan::BadNumber(p) => BuildOutcome::Failed {
                            line: i,
                            fail: LineFail::BadNumber { position: p, stripped: strip_spaces(conv) },
                        },
                        TokenScan::Toks(toks) => {
                            let pr = spec_parse_expression(toks, 0);
                            match pr.0 {
                                Err(e) => BuildOutcome::Failed {
                                    line: i,
                                    fail: LineFail::Syntax { err: e },
                                },
                                Ok(v) => spec_build_lines(
                                    lines,
                                    i + 1,
                                    names2,
                                    edges.push((io, id, v)),
                                ),
                            }
                        },
                    }
                }
            }
        }
    }
}

/// What building a graph from a whole document yields.
pub open spec fn spec_build(doc: Seq<char>) -> BuildOutcome {
    spec_build_lines(split_lines(doc), 0, Seq::empty(), Seq::empty())
}

/// Copies `s[from..to]` into a fresh vector.
fn copy_range(s: &Vec<char>, from: usize, to: usize) -> (r: Vec<char>)
    requires
        from <= to <= s@.len(),
    ensures
        r@ == s@.subrange(from as int, to as int),
{
    let mut r: Vec<char> = Vec::new();
    let mut i = from;
    while i < to
        invariant
            from <= i <= to <= s@.len(),
            r@ == s@.subrange(from as int, i as int),
        decreases to - i,
    {
        r.push(s[i]);
        proof {
            assert(s@.subrange(from as int, i as int).push(s@[i as int]) =~= s@.subrange(
                from as int,
                i + 1,
            ));
        }
        i += 1;
    }
    r
}

/// Trims surrounding white space from a line of characters.
fn trim_vec(s: &Vec<char>) -> (r: Vec<char>)
    ensures
        r@ == spec_trim(s@),
{
    let n = s.len();
    let mut a: usize = 0;
    while a < n && is_space_exec(s[a])
        invariant
            0 <= a <= n,
            n == s@.len(),
            skip_spaces(s@, 0) == skip_spaces(s@, a as int),
        decreases n - a,
    {
        a += 1;
    }
    assert(skip_spaces(s@, a as int) == a as int);
    let mut b: usize = n;
    while b > a && is_space_exec(s[b - 1])
        invariant
            a <= b <= n,
            n == s@.len(),
            skip_spaces(s@, 0) == a as int,
            rskip_spaces(s@, n as int) == rskip_spaces(s@, b as int),
        decreases b,
    {
        b -= 1;
    }
    proof {
        let bb = rskip_spaces(s@, s@.len() as int);
        if b > a {
            assert(rskip_spaces(s@, b as int) == b as int);
            assert(spec_trim(s@) == s@.subrange(a as int, b as int));
        } else {
            assert(b == a);
            lemma_rskip_spaces(s@, b as int);
            assert(bb <= b as int);
            assert(s@.subrange(a as int, b as int) =~= Seq::<char>::empty());
            if bb == a as int {
                assert(spec_trim(s@) == s@.subrange(a as int, b as int));
            } else {
                assert(spec_trim(s@) == Seq::<char>::empty());
                assert(spec_trim(s@) == s@.subrange(a as int, b as int));
            }
        }
    }
    copy_range(s, a, b)
}

/// The first occurrence of `pat` in `s`, scanning left to right.
fn find_sub_exec(s: &Vec<char>, pat: &Vec<char>) -> (r: Option<usize>)
    requires
        pat@.len() >= 1,
    ensures
        match r {
            Some(k) => k == find_sub(s@, pat@, 0),
            None => find_sub(s@, pat@, 0) == -1,
        },
{
    let n = s.len();
    let m = pat.len();
    if m > n {
        return None;
    }
    let mut i: usize = 0;
    while i <= n - m
        invariant
            0 <= i,
            i <= n - m + 1,
            m <= n,
            n == s@.len(),
            m == pat@.len(),
            1 <= m,
            find_sub(s@, pat@, 0) == find_sub(s@, pat@, i as int),
        decreases n - i,
    {
        let mut j: usize = 0;
        while j < m && s[i + j] == pat[j]
            invariant
                0 <= j <= m,
                i + m <= n,
                n == s@.len(),
                m == pat@.len(),
                forall|k: int| 0 <= k < j ==> s@[i + k] == pat@[k],
            decreases m - j,
        {
            j += 1;
        }
        if j == m {
            proof {
                assert(s@.subrange(i as int, i + m) =~= pat@);
            }
            return Some(i);
        }
        proof {
            assert(s@[i + j as int] != pat@[j as int]);
            assert(s@.subrange(i as int, i + m)[j as int] == s@[i + j]);
            assert(!match_at(s@, pat@, i as int));
        }
        i += 1;
    }
    proof {
        assert(find_sub(s@, pat@, i as int) == -1);
    }
    None
}

/// The document's characters split into lines at `'\n'`.
fn split_lines_exec(doc: &Vec<char>) -> (r: Vec<Vec<char>>)
    ensures
        lines_view(r@) == split_lines(doc@),
{
    let n = doc.len();
    let mut lines: Vec<Vec<char>> = Vec::new();
    let mut cur: Vec<char> = Vec::new();
    let mut start: usize = 0;
    let mut i: usize = 0;
    proof {
        assert(doc@.subrange(0, n as int) =~= doc@);
        assert(lines_view(lines@) + split_lines(doc@) =~= split_lines(doc@));
    }
    while i < n
        invariant
            0 <= start <= i <= n,
            n == doc@.len(),
            cur@ == doc@.subrange(start as int, i as int),
            forall|k: int| start <= k < i ==> doc@[k] != '\n',
            split_lines(doc@) == lines_view(lines@) + split_lines(
                doc@.subrange(start as int, n as int),
            ),
        decreases n - i,
    {
        let c = doc[i];
        if c == '\n' {
            proof {
                let rest = doc@.subrange(start as int, n as int);
                lemma_find_char(rest, '\n', 0);
                assert(forall|k: int|
                    0 <= k < i - start ==> rest[k] == doc@[start + k] && rest[k] != '\n');
                assert(rest[i - start] == '\n');
                assert(find_char(rest, '\n', 0) == i - start) by {
                    let f = find_char(rest, '\n', 0);
                    if f < i - start {
                        assert(rest[f] == '\n');
                    }
                    if f > i - start {
                        assert(rest[i - start] != '\n');
                    }
                }
                assert(rest.subrange(0, i - start) =~= doc@.subrange(start as int, i as int));
                assert(rest.subrange(i - start + 1, rest.len() as int) =~= doc@.subrange(
                    i + 1,
                    n as int,
                ));
                assert(lines_view(lines@).push(cur@) =~= lines_view(lines@.push(cur)));
                assert(lines_view(lines@) + (seq![cur@] + split_lines(
                    doc@.subrange(i + 1, n as int),
                )) =~= lines_view(lines@).push(cur@) + split_lines(
                    doc@.subrange(i + 1, n as int),
                ));
            }
            lines.push(cur);
            cur = Vec::new();
            start = i + 1;
            proof {
                assert(cur@ =~= doc@.subrange(start as int, i + 1));
            }
        } else {
            cur.push(c);
            proof {
                assert(doc@.subrange(start as int, i as int).push(doc@[i as int]) =~= doc@.subrange(
                    start as int,
                    i + 1,
                ));
            }
        }
        i += 1;
    }
    proof {
        let rest = doc@.subrange(start as int, n as int);
        lemma_find_char(rest, '\n', 0);
        assert(find_char(rest, '\n', 0) == rest.len()) by {
            let f = find_char(rest, '\n', 0);
            if f < rest.len() {
                assert(rest[f] == doc@[start + f]);
            }
        }
        assert(split_lines(rest) == seq![rest]);
        assert(cur@ =~= rest);
        assert(lines_view(lines@) + seq![cur@] =~= lines_view(lines@.push(cur)));
    }
    lines.push(cur);
    lines
}

/// The first index of `c` in `s`, or the length if it does not occur.
fn find_char_exec(s: &Vec<char>, c: char) -> (k: usize)
    ensures
        k as int == find_char(s@, c, 0),
        k <= s@.len(),
{
    let n = s.len();
    let mut i: usize = 0;
    while i < n
        invariant
            0 <= i <= n,
            n == s@.len(),
            find_char(s@, c, 0) == find_char(s@, c, i as int),
        decreases n - i,
    {
        if s[i] == c {
            return i;
        }
        i += 1;
    }
    i
}

/// One directed conversion: evaluate `calc` on an origin-unit value to get
/// the destination-unit value.
#[derive(Debug)]
struct Edge {
    from: usize,
    to: usize,
    calc: Value,
}

spec fn edges_view_of(edges: Seq<Edge>) -> Seq<(int, int, Value)> {
    edges.map_values(|e: Edge| (e.from as int, e.to as int, e.calc))
}

/// The conversion graph: unit names with stable integer identities, and
/// AST-labeled directed edges between them. Built once from a document,
/// read-only afterward.
#[derive(Debug)]
pub struct Parsed {
    names: Vec<String>,
    edges: Vec<Edge>,
}

impl Parsed {
    /// The unit names, in order of first mention; index is node identity.
    pub closed spec fn names_view(&self) -> Seq<Seq<char>> {
        names_view_of(self.names@)
    }

    /// The edges `(origin, destination, expression)` in declaration order.
    pub closed spec fn edges_view(&self) -> Seq<(int, int, Value)> {
        edges_view_of(self.edges@)
    }

    /// Every edge endpoint is a node, and no name occurs twice.
    pub closed spec fn wf(&self) -> bool {
        &&& forall|k: int|
            0 <= k < self.edges_view().len() ==> 0 <= (#[trigger] self.edges_view()[k]).0
                < self.names_view().len() && 0 <= self.edges_view()[k].1 < self.names_view().len()
        &&& distinct_names(self.names_view())
    }
}

/// The identity of `name` among `names`, inserting it at the end when new;
/// names stay distinct.
fn lookup_or_insert(names: &mut Vec<String>, name: String) -> (ix: usize)
    requires
        distinct_names(names_view_of(old(names)@)),
    ensures
        ix as int == name_index(names_view_of(old(names)@), name@, 0),
        names_view_of(final(names)@) == if ix as int == names_view_of(old(names)@).len() {
            names_view_of(old(names)@).push(name@)
        } else {
            names_view_of(old(names)@)
        },
        ix < final(names)@.len(),
        names_view_of(final(names)@)[ix as int] == name@,
        distinct_names(names_view_of(final(names)@)),
{
    let ghost nv = names_view_of(names@);
    let n = names.len();
    let mut i: usize = 0;
    while i < n
        invariant
            0 <= i <= n,
            n == names@.len(),
            names@ == old(names)@,
            distinct_names(names_view_of(names@)),
            nv == names_view_of(names@),
            name_index(nv, name@, 0) == name_index(nv, name@, i as int),
        decreases n - i,
    {
        if names[i] == name {
            assert(name_index(nv, name@, i as int) == i as int);
            return i;
        }
        proof {
            assert(nv[i as int] != name@);
        }
        i += 1;
    }
    assert(name_index(nv, name@, n as int) == n as int);
    proof {
        lemma_name_index(nv, name@, 0);
        assert(names_view_of(names@.push(name)) =~= nv.push(name@));
    }
    names.push(name);
    n
}

impl Parsed {
    /// Builds the conversion graph from a definition document. Lines are
    /// 0-indexed; blank and comment lines are skipped; the first failing line
    /// rejects the whole document with its index and the exact failure.
    pub fn try_new(unparsed: &str) -> (r: Result<Parsed, ParseError>)
        ensures
            match spec_build(unparsed@) {
                BuildOutcome::Built { names, edges } => r matches Ok(g) && g.wf() && g.names_view()
                    == names && g.edges_view() == edges,
                BuildOutcome::Failed { line, fail } => r matches Err(pe) && pe.line == line && (
                match fail {
                    LineFail::NoArrow => pe.error_kind is MissingArrow,
                    LineFail::NoColon => pe.error_kind is MissingColon,
                    LineFail::BadChar { ch, position, stripped } => pe.error_kind matches
                        ParseErrorKind::Tokenizer(TokenizeError::InvalidChar {
                        serialized_string,
                        char: c2,
                        position: p2,
                    }) && serialized_string@ == stripped && c2 == ch && p2 == position,
                    LineFail::BadNumber { position, stripped } => pe.error_kind matches
                        ParseErrorKind::Tokenizer(TokenizeError::MalformedNumber {
                        serialized_string,
                        position: p2,
                    }) && serialized_string@ == stripped && p2 == position,
                    LineFail::Syntax { err } => pe.error_kind matches
                        ParseErrorKind::CalculationParseError(e2) && e2 == err,
                }),
            },
    {
        let mut doc: Vec<char> = Vec::new();
        for c in it: unparsed.chars()
            invariant
                it.seq() == unparsed@,
                doc@ == it.seq().subrange(0, it.index()),
        {
            proof {
                assert(it.seq().subrange(0, it.index()).push(it.seq()[it.index()]) =~= it.seq(
                ).subrange(0, it.index() + 1));
            }
            doc.push(c);
        }
        proof {
            assert(unparsed@.subrange(0, unparsed@.len() as int) =~= unparsed@);
        }
        let lines = split_lines_exec(&doc);
        let nlines = lines.len();
        let ghost lv = lines_view(lines@);
        let mut names: Vec<String> = Vec::new();
        let mut edges: Vec<Edge> = Vec::new();
        proof {
            assert(names_view_of(names@) =~= Seq::<Seq<char>>::empty());
            assert(edges_view_of(edges@) =~= Seq::<(int, int, Value)>::empty());
        }
        let mut li: usize = 0;
        while li < nlines
            invariant
                0 <= li <= nlines,
                nlines == lines@.len(),
                lv == lines_view(lines@),
                lv == split_lines(unparsed@),
                spec_build(unparsed@) == spec_build_lines(
                    lv,
                    li as int,
                    names_view_of(names@),
                    edges_view_of(edges@),
                ),
                distinct_names(names_view_of(names@)),
                forall|k: int|
                    0 <= k < edges@.len() ==> (#[trigger] edges@[k]).from < names@.len()
                        && edges@[k].to < names@.len(),
            decreases nlines - li,
        {
            let ghost names0 = names_view_of(names@);
            let ghost edges0 = edges_view_of(edges@);
            let line = &lines[li];
            let trimmed = trim_vec(line);
            let hash = find_char_exec(&trimmed, '#');
            let cleaned = copy_range(&trimmed, 0, hash);
            proof {
                assert(cleaned@ == clean_line(lv[li as int]));
            }
            if cleaned.len() > 0 {
                let arrow: Vec<char> = vec![' ', '-', '>', ' '];
                proof {
                    assert(arrow@ =~= arrow_pat());
                }
                let ka = match find_sub_exec(&cleaned, &arrow) {
                    None => {
                        return Err(ParseError { line: li, error_kind: ParseErrorKind::MissingArrow });
                    },
                    Some(ka) => ka,
                };
                proof {
                    lemma_find_sub_props(cleaned@, arrow_pat(), 0);
                }
                let origin_raw = copy_range(&cleaned, 0, ka);
                let rest = copy_range(&cleaned, ka + 4, cleaned.len());
                let colon: Vec<char> = vec![':', ' '];
                proof {
                    assert(colon@ =~= colon_pat());
                }
                let kc = match find_sub_exec(&rest, &colon) {
                    None => {
                        return Err(ParseError { line: li, error_kind: ParseErrorKind::MissingColon });
                    },
                    Some(kc) => kc,
                };
                proof {
                    lemma_find_sub_props(rest@, colon_pat(), 0);
                }
                let dest_raw = copy_range(&rest, 0, kc);
                let conv_raw = copy_range(&rest, kc + 2, rest.len());
                let origin_t = trim_vec(&origin_raw);
                let dest_t = trim_vec(&dest_raw);
                let conv_t = trim_vec(&conv_raw);
                let origin_s = crate::calculation::token::chars_to_string(&origin_t);
                let dest_s = crate::calculation::token::chars_to_string(&dest_t);
                let io = lookup_or_insert(&mut names, origin_s);
                let id = lookup_or_insert(&mut names, dest_s);
                let conv_s = crate::calculation::token::chars_to_string(&conv_t);
                let tokens = match token_list(conv_s.as_str()) {
                    Err(e) => {
                        return Err(
                            ParseError { line: li, error_kind: ParseErrorKind::Tokenizer(e) },
                        );
                    },
                    Ok(tokens) => tokens,
                };
                let mut parser = Parser::new(tokens);
                let v = match parser.parse_expression() {
                    Err(e) => {
                        return Err(
                            ParseError {
                                line: li,
                                error_kind: ParseErrorKind::CalculationParseError(e),
                            },
                        );
                    },
                    Ok(v) => v,
                };
                proof {
                    assert(edges_view_of(edges@.push(Edge { from: io, to: id, calc: v })) =~= edges0.push(
                        (io as int, id as int, v),
                    ));
                }
                edges.push(Edge { from: io, to: id, calc: v });
            }
            li += 1;
        }
        Ok(Parsed { names, edges })
    }
}

/// Whether `v` can be reached from `start` in at most `k` edge steps.
pub open spec fn reachable_in(
    edges: Seq<(int, int, Value)>,
    start: int,
    v: int,
    k: nat,
) -> bool
    decreases k,
{
    v == start || (k > 0 && exists|j: int|
        0 <= j < edges.len() && (#[trigger] edges[j]).1 == v && reachable_in(
            edges,
            start,
            edges[j].0,
            (k - 1) as nat,
        ))
}

/// Whether `v` can be reached from `start` at all.
pub open spec fn reachable(edges: Seq<(int, int, Value)>, start: int, v: int) -> bool {
    exists|k: nat| reachable_in(edges, start, v, k)
}

proof fn lemma_reachable_mono(
    edges: Seq<(int, int, Value)>,
    start: int,
    v: int,
    k1: nat,
    k2: nat,
)
    requires
        k1 <= k2,
        reachable_in(edges, start, v, k1),
    ensures
        reachable_in(edges, start, v, k2),
    decreases k1,
{
    if v != start && k1 > 0 {
        let j = choose|j: int|
            0 <= j < edges.len() && (#[trigger] edges[j]).1 == v && reachable_in(
                edges,
                start,
                edges[j].0,
                (k1 - 1) as nat,
            );
        lemma_reachable_mono(edges, start, edges[j].0, (k1 - 1) as nat, (k2 - 1) as nat);
    }
}

proof fn lemma_reachable_fixpoint(edges: Seq<(int, int, Value)>, start: int, k: nat, m: nat)
    requires
        forall|v: int|
            #[trigger] reachable_in(edges, start, v, (k + 1) as nat) ==> reachable_in(
                edges,
                start,
                v,
                k,
            ),
    ensures
        forall|v: int|
            #[trigger] reachable_in(edges, start, v, m) ==> reachable_in(edges, start, v, k),
    decreases m,
{
    if m > 0 {
        lemma_reachable_fixpoint(edges, start, k, (m - 1) as nat);
        assert forall|v: int| #[trigger] reachable_in(edges, start, v, m) implies reachable_in(
            edges,
            start,
            v,
            k,
        ) by {
            if v != start {
                let j = choose|j: int|
                    0 <= j < edges.len() && (#[trigger] edges[j]).1 == v && reachable_in(
                        edges,
                        start,
                        edges[j].0,
                        (m - 1) as nat,
                    );
                assert(reachable_in(edges, start, edges[j].0, k));
                assert(reachable_in(edges, start, v, (k + 1) as nat));
            }
        }
    }
}

/// Whether some edge runs from `u` to `v`.
pub open spec fn has_edge(edges: Seq<(int, int, Value)>, u: int, v: int) -> bool {
    exists|j: int|
        0 <= j < edges.len() && (#[trigger] edges[j]).0 == u && edges[j].1 == v
}

/// Whether `path` is a walk that starts at `start` and follows one edge for
/// each consecutive pair.
pub open spec fn is_path(edges: Seq<(int, int, Value)>, path: Seq<int>, start: int) -> bool {
    &&& path.len() >= 1
    &&& path[0] == start
    &&& forall|i: int|
        0 <= i < path.len() - 1 ==> has_edge(edges, path[i], #[trigger] path[i + 1])
}

/// The first edge from `u` to `v` at or after `j`, or the edge count.
pub open spec fn first_edge(edges: Seq<(int, int, Value)>, u: int, v: int, j: int) -> int
    decreases edges.len() - j,
{
    if 0 <= j < edges.len() {
        if edges[j].0 == u && edges[j].1 == v {
            j
        } else {
            first_edge(edges, u, v, j + 1)
        }
    } else {
        edges.len() as int
    }
}

proof fn lemma_first_edge(edges: Seq<(int, int, Value)>, u: int, v: int, j: int)
    requires
        0 <= j <= edges.len(),
    ensures
        j <= first_edge(edges, u, v, j) <= edges.len(),
        first_edge(edges, u, v, j) < edges.len() ==> edges[first_edge(edges, u, v, j)].0 == u
            && edges[first_edge(edges, u, v, j)].1 == v,
        forall|i: int|
            j <= i < first_edge(edges, u, v, j) ==> !((#[trigger] edges[i]).0 == u && edges[i].1
                == v),
    decreases edges.len() - j,
{
    if j < edges.len() && !(edges[j].0 == u && edges[j].1 == v) {
        lemma_first_edge(edges, u, v, j + 1);
    }
}

/// The value a walk converts `x` into: each consecutive pair's first edge is
/// evaluated in turn; a failing evaluation fails the whole chain.
pub open spec fn chain_eval(edges: Seq<(int, int, Value)>, path: Seq<int>, x: Decimal) -> Option<
    Decimal,
>
    decreases path.len(),
{
    if path.len() <= 1 {
        Some(x)
    } else {
        let j = first_edge(edges, path[0], path[1], 0);
        if j == edges.len() {
            None
        } else {
            match spec_evaluate(edges[j].2, x) {
                Some(y) => chain_eval(edges, path.skip(1), y),
                None => None,
            }
        }
    }
}

/// No node carrying the target name can be reached in fewer hops than the
/// found path uses: the name belongs to one node, and that node cannot be
/// reached within the path's hop count less one.
proof fn lemma_no_closer_target(
    names: Seq<Seq<char>>,
    edges: Seq<(int, int, Value)>,
    start: int,
    t: int,
    end_name: Seq<char>,
    pv: Seq<int>,
)
    requires
        forall|t2: int| 0 <= t2 < names.len() && names[t2] == end_name ==> t2 == t,
        pv.len() >= 2 ==> !reachable_in(edges, start, t, (pv.len() - 2) as nat),
    ensures
        pv.len() >= 2 ==> !(exists|t2: int|
            0 <= t2 < names.len() && names[t2] == end_name && reachable_in(
                edges,
                start,
                t2,
                (pv.len() - 2) as nat,
            )),
{
    if pv.len() >= 2 && exists|t2: int|
        0 <= t2 < names.len() && names[t2] == end_name && reachable_in(
            edges,
            start,
            t2,
            (pv.len() - 2) as nat,
        ) {
        let t2 = choose|t2: int|
            0 <= t2 < names.len() && names[t2] == end_name && reachable_in(
                edges,
                start,
                t2,
                (pv.len() - 2) as nat,
            );
        assert(t2 == t);
    }
}

/// A vector of node indices as a sequence of identities.
pub open spec fn path_view_of(p: Seq<usize>) -> Seq<int> {
    p.map_values(|u: usize| u as int)
}

impl Parsed {
    /// The identity of the node carrying `name`, if the graph has one.
    pub fn get_node_by_name(&self, name: &str) -> (r: Option<usize>)
        ensures
            match r {
                Some(ix) => ix < self.names_view().len() && self.names_view()[ix as int] == name@,
                None => !self.names_view().contains(name@),
            },
    {
        let needle = String::from_str(name);
        let n = self.names.len();
        let mut i: usize = 0;
        while i < n
            invariant
                0 <= i <= n,
                n == self.names@.len(),
                needle@ == name@,
                forall|j: int| 0 <= j < i ==> self.names_view()[j] != name@,
            decreases n - i,
        {
            if self.names[i] == needle {
                return Some(i);
            }
            i += 1;
        }
        proof {
            if self.names_view().contains(name@) {
                let j = choose|j: int|
                    0 <= j < self.names_view().len() && self.names_view()[j] == name@;
                assert(self.names_view()[j] != name@);
            }
        }
        None
    }

    /// Breadth-first search from `start`: marks exactly the reachable nodes,
    /// records each one's hop distance (exact and minimal) and a predecessor
    /// on a shortest walk.
    #[verifier::rlimit(100)]
    fn bfs(&self, start: usize) -> (r: (Vec<bool>, Vec<usize>, Vec<usize>))
        requires
            self.wf(),
            start < self.names_view().len(),
        ensures
            ({
                let (visited, dist, pred) = r;
                let n = self.names_view().len();
                let edges = self.edges_view();
                &&& visited@.len() == n && dist@.len() == n && pred@.len() == n
                &&& forall|v: int|
                    0 <= v < n ==> (#[trigger] visited@[v] <==> reachable(edges, start as int, v))
                &&& visited@[start as int] && dist@[start as int] == 0
                &&& forall|v: int|
                    0 <= v < n && #[trigger] visited@[v] ==> reachable_in(
                        edges,
                        start as int,
                        v,
                        dist@[v] as nat,
                    ) && (dist@[v] > 0 ==> !reachable_in(
                        edges,
                        start as int,
                        v,
                        (dist@[v] - 1) as nat,
                    ))
                &&& forall|v: int|
                    0 <= v < n && #[trigger] visited@[v] && v != start ==> dist@[v] > 0 && (
                    pred@[v] as int) < n && visited@[pred@[v] as int] && dist@[pred@[v] as int] + 1
                        == dist@[v] && has_edge(edges, pred@[v] as int, v)
                &&& forall|v: int|
                    0 <= v < n && #[trigger] visited@[v] && dist@[v] == 0 ==> v == start
            }),
    {
        let n = self.names.len();
        let ghost edges = self.edges_view();
        let mut visited: Vec<bool> = vec![false; n];
        let mut dist: Vec<usize> = vec![0; n];
        let mut pred: Vec<usize> = vec![0; n];
        visited[start] = true;
        let mut frontier: Vec<usize> = Vec::new();
        frontier.push(start);
        let mut level: usize = 0;
        let mut nvis: usize = 1;
        let ghost mut vset: Set<int> = Set::empty().insert(start as int);
        proof {
            assert(reachable_in(edges, start as int, start as int, 0));
            assert(vset =~= Set::new(|v: int| 0 <= v < n && visited@[v]));
            vstd::set_lib::lemma_int_range(0, n as int);
            assert(vset.subset_of(vstd::set_lib::set_int_range(0, n as int)));
            vstd::set_lib::lemma_len_subset(vset, vstd::set_lib::set_int_range(0, n as int));
            assert(Set::<int>::empty().insert(start as int).len() == 1);
            assert(frontier@[0] == start);
            assert forall|v: int| 0 <= v < n && #[trigger] visited@[v] implies v == start as int by {}
            assert forall|v: int|
                0 <= v < n && #[trigger] visited@[v] && dist@[v] == 0 implies frontier@.contains(
                v as usize,
            ) by {
                assert(v == start as int);
                assert(frontier@[0] == start);
            }
        }
        while frontier.len() > 0
            invariant
                n == self.names_view().len(),
                edges == self.edges_view(),
                self.wf(),
                start < n,
                visited@.len() == n && dist@.len() == n && pred@.len() == n,
                visited@[start as int] && dist@[start as int] == 0,
                forall|v: int|
                    0 <= v < n ==> (#[trigger] visited@[v] <==> reachable_in(
                        edges,
                        start as int,
                        v,
                        level as nat,
                    )),
                forall|v: int|
                    0 <= v < n && #[trigger] visited@[v] ==> dist@[v] <= level && reachable_in(
                        edges,
                        start as int,
                        v,
                        dist@[v] as nat,
                    ) && (dist@[v] > 0 ==> !reachable_in(
                        edges,
                        start as int,
                        v,
                        (dist@[v] - 1) as nat,
                    )),
                forall|v: int|
                    0 <= v < n && #[trigger] visited@[v] && v != start ==> dist@[v] > 0 && (
                    pred@[v] as int) < n && visited@[pred@[v] as int] && dist@[pred@[v] as int] + 1
                        == dist@[v] && has_edge(edges, pred@[v] as int, v),
                forall|i: int|
                    0 <= i < frontier@.len() ==> ((#[trigger] frontier@[i]) as int) < n
                        && visited@[frontier@[i] as int] && dist@[frontier@[i] as int] == level,
                forall|v: int|
                    0 <= v < n && #[trigger] visited@[v] && dist@[v] == level ==>
                        frontier@.contains(v as usize),
                vset =~= Set::new(|v: int| 0 <= v < n && visited@[v]),
                vset.finite(),
                nvis == vset.len(),
                nvis <= n,
                level <= nvis,
                frontier@.len() > 0 ==> level < nvis,
            decreases n - nvis, frontier@.len(),
        {
            let ghost visited0 = visited@;
            let ghost vset0 = vset;
            let ghost nvis0 = nvis;
            let mut next: Vec<usize> = Vec::new();
            let nf = frontier.len();
            let mut fi: usize = 0;
            while fi < nf
                invariant
                    0 <= fi <= nf,
                    nf == frontier@.len(),
                    n == self.names_view().len(),
                    edges == self.edges_view(),
                    self.wf(),
                    start < n,
                    visited@.len() == n && dist@.len() == n && pred@.len() == n,
                    visited@[start as int] && dist@[start as int] == 0,
                    // frontier facts carried in
                    forall|i: int|
                        0 <= i < frontier@.len() ==> ((#[trigger] frontier@[i]) as int) < n
                            && visited0[frontier@[i] as int] && dist@[frontier@[i] as int]
                            == level,
                    // old visited frozen and characterized
                    forall|v: int|
                        0 <= v < n ==> (#[trigger] visited0[v] <==> reachable_in(
                            edges,
                            start as int,
                            v,
                            level as nat,
                        )),
                    forall|v: int| 0 <= v < n && #[trigger] visited0[v] ==> visited@[v],
                    forall|v: int|
                        0 <= v < n && #[trigger] visited0[v] ==> dist@[v] <= level
                            && visited0[v] == visited@[v],
                    // all visited have sound dist/pred
                    forall|v: int|
                        0 <= v < n && #[trigger] visited@[v] ==> dist@[v] <= level + 1
                            && reachable_in(edges, start as int, v, dist@[v] as nat) && (dist@[v]
                            > 0 ==> !reachable_in(edges, start as int, v, (dist@[v] - 1) as nat)),
                    forall|v: int|
                        0 <= v < n && #[trigger] visited@[v] && v != start ==> dist@[v] > 0 && (
                        pred@[v] as int) < n && visited@[pred@[v] as int] && dist@[pred@[
                        v] as int] + 1 == dist@[v] && has_edge(edges, pred@[v] as int, v),
                    // the newly visited: exactly those found through processed pairs
                    forall|v: int|
                        0 <= v < n ==> ((#[trigger] visited@[v] && !visited0[v]) <==> (exists|
                            a: int,
                            j: int,
                        |
                            #![trigger edges[j], frontier@[a]]
                            0 <= a < nf && 0 <= j < edges.len() && (a < fi) && edges[j].0
                                == frontier@[a] as int && edges[j].1 == v && !visited0[v])),
                    forall|v: int|
                        0 <= v < n && #[trigger] visited@[v] && !visited0[v] ==> dist@[v] == level
                            + 1 && next@.contains(v as usize),
                    forall|i: int|
                        0 <= i < next@.len() ==> ((#[trigger] next@[i]) as int) < n
                            && visited@[next@[i] as int] && !visited0[next@[i] as int],
                    // counting
                    vset =~= Set::new(|v: int| 0 <= v < n && visited@[v]),
                    vset.finite(),
                    nvis == vset.len(),
                    nvis <= n,
                    level < nvis0,
                    nvis0 <= nvis,
                    next@.len() > 0 ==> nvis > nvis0,
                    level < n,
                    forall|v: int|
                        0 <= v < n && #[trigger] visited0[v] && dist@[v] == level ==>
                            frontier@.contains(v as usize),
                decreases nf - fi,
            {
                let u = frontier[fi];
                let ne = self.edges.len();
                let mut ei: usize = 0;
                while ei < ne
                    invariant
                        0 <= ei <= ne,
                        0 <= fi < nf,
                        nf == frontier@.len(),
                        ne == self.edges@.len(),
                        u == frontier@[fi as int],
                        n == self.names_view().len(),
                        edges == self.edges_view(),
                        self.wf(),
                        start < n,
                        visited@.len() == n && dist@.len() == n && pred@.len() == n,
                        visited@[start as int] && dist@[start as int] == 0,
                        forall|i: int|
                            0 <= i < frontier@.len() ==> ((#[trigger] frontier@[i]) as int) < n
                                && visited0[frontier@[i] as int] && dist@[frontier@[i] as int]
                                == level,
                        forall|v: int|
                            0 <= v < n ==> (#[trigger] visited0[v] <==> reachable_in(
                                edges,
                                start as int,
                                v,
                                level as nat,
                            )),
                        forall|v: int| 0 <= v < n && #[trigger] visited0[v] ==> visited@[v],
                        forall|v: int|
                            0 <= v < n && #[trigger] visited0[v] ==> dist@[v] <= level
                                && visited0[v] == visited@[v],
                        forall|v: int|
                            0 <= v < n && #[trigger] visited@[v] ==> dist@[v] <= level + 1
                                && reachable_in(edges, start as int, v, dist@[v] as nat) && (
                            dist@[v] > 0 ==> !reachable_in(
                                edges,
                                start as int,
                                v,
                                (dist@[v] - 1) as nat,
                            )),
                        forall|v: int|
                            0 <= v < n && #[trigger] visited@[v] && v != start ==> dist@[v] > 0
                                && (pred@[v] as int) < n && visited@[pred@[v] as int] && dist@[
                            pred@[v] as int] + 1 == dist@[v] && has_edge(
                                edges,
                                pred@[v] as int,
                                v,
                            ),
                        forall|v: int|
                            0 <= v < n ==> ((#[trigger] visited@[v] && !visited0[v]) <==> (exists|
                                a: int,
                                j: int,
                            |
                                #![trigger edges[j], frontier@[a]]
                                0 <= a < nf && 0 <= j < edges.len() && (a < fi || (a == fi && j
                                    < ei)) && edges[j].0 == frontier@[a] as int && edges[j].1 == v
                                    && !visited0[v])),
                        forall|v: int|
                            0 <= v < n && #[trigger] visited@[v] && !visited0[v] ==> dist@[v]
                                == level + 1 && next@.contains(v as usize),
                        forall|i: int|
                            0 <= i < next@.len() ==> ((#[trigger] next@[i]) as int) < n
                                && visited@[next@[i] as int] && !visited0[next@[i] as int],
                        vset =~= Set::new(|v: int| 0 <= v < n && visited@[v]),
                        vset.finite(),
                        nvis == vset.len(),
                        nvis <= n,
                        level < nvis0,
                        nvis0 <= nvis,
                        next@.len() > 0 ==> nvis > nvis0,
                        level < n,
                        forall|v: int|
                            0 <= v < n && #[trigger] visited0[v] && dist@[v] == level ==>
                                frontier@.contains(v as usize),
                    decreases ne - ei,
                {
                    let to = self.edges[ei].to;
                    let from = self.edges[ei].from;
                    proof {
                        assert(edges[ei as int] == (from as int, to as int, self.edges@[ei as int].calc));
                        assert((to as int) < n && (from as int) < n);
                    }
                    if from == u && !visited[to] {
                        proof {
                            assert(!visited0[to as int]);
                            vstd::set_lib::lemma_int_range(0, n as int);
                            assert(!vset.contains(to as int));
                            assert(vset.insert(to as int).subset_of(
                                vstd::set_lib::set_int_range(0, n as int),
                            ));
                            vstd::set_lib::lemma_len_subset(
                                vset.insert(to as int),
                                vstd::set_lib::set_int_range(0, n as int),
                            );
                            assert(vset.insert(to as int).len() == vset.len() + 1);
                        }
                        let ghost next0 = next@;
                        visited[to] = true;
                        dist[to] = level + 1;
                        pred[to] = u;
                        next.push(to);
                        nvis += 1;
                        proof {
                            assert(next@ == next0.push(to));
                            assert(next@[next0.len() as int] == to);
                            assert forall|w: usize| next0.contains(w) implies next@.contains(
                                w,
                            ) by {
                                let ix = choose|ix: int| 0 <= ix < next0.len() && next0[ix] == w;
                                assert(next@[ix] == w);
                            }
                            assert(next@.contains(to));
                            vset = vset.insert(to as int);
                            assert(vset =~= Set::new(|v: int| 0 <= v < n && visited@[v]));
                            // the new node is reachable in level + 1 steps
                            assert(reachable_in(edges, start as int, u as int, level as nat));
                            assert(edges[ei as int].0 == u as int && edges[ei as int].1
                                == to as int);
                            assert(reachable_in(edges, start as int, to as int, (level + 1) as nat));
                            assert(!reachable_in(edges, start as int, to as int, level as nat));
                            assert(to != start);
                        }
                    }
                    ei += 1;
                }
                fi += 1;
            }
            // one full level processed: visited now matches level + 1
            proof {
                assert forall|v: int| 0 <= v < n implies (#[trigger] visited@[v] <==> reachable_in(
                    edges,
                    start as int,
                    v,
                    (level + 1) as nat,
                )) by {
                    if visited@[v] {
                        if visited0[v] {
                            lemma_reachable_mono(
                                edges,
                                start as int,
                                v,
                                level as nat,
                                (level + 1) as nat,
                            );
                        } else {
                            assert(reachable_in(edges, start as int, v, dist@[v] as nat));
                            assert(dist@[v] == level + 1);
                        }
                    }
                    if reachable_in(edges, start as int, v, (level + 1) as nat) && !visited@[v] {
                        assert(!visited0[v]);
                        assert(v != start);
                        let j = choose|j: int|
                            0 <= j < edges.len() && (#[trigger] edges[j]).1 == v && reachable_in(
                                edges,
                                start as int,
                                edges[j].0,
                                level as nat,
                            );
                        let u = edges[j].0;
                        assert(0 <= u < n) by {
                            assert(edges[j] == self.edges_view()[j]);
                        }
                        assert(visited0[u]);
                        if dist@[u] == level {
                            assert(frontier@.contains(u as usize));
                            let a = choose|a: int|
                                0 <= a < frontier@.len() && frontier@[a] == u as usize;
                            assert(0 <= a < nf && edges[j].0 == frontier@[a] as int && edges[j].1
                                == v && !visited0[v]);
                            assert(visited@[v]);
                        } else {
                            assert(dist@[u] < level);
                            assert(reachable_in(edges, start as int, u, dist@[u] as nat));
                            assert(reachable_in(edges, start as int, v, (dist@[u] + 1) as nat));
                            lemma_reachable_mono(
                                edges,
                                start as int,
                                v,
                                (dist@[u] + 1) as nat,
                                level as nat,
                            );
                            assert(visited0[v]);
                        }
                    }
                }
            }
            frontier = next;
            level += 1;
        }
        // frontier is empty: the reachable set is a fixpoint
        proof {
            assert forall|v: int| #[trigger] reachable_in(
                edges,
                start as int,
                v,
                (level + 1) as nat,
            ) implies reachable_in(edges, start as int, v, level as nat) by {
                if v != start {
                    let j = choose|j: int|
                        0 <= j < edges.len() && (#[trigger] edges[j]).1 == v && reachable_in(
                            edges,
                            start as int,
                            edges[j].0,
                            level as nat,
                        );
                    let u = edges[j].0;
                    assert(0 <= u < n) by {
                        assert(edges[j] == self.edges_view()[j]);
                    }
                    assert(visited@[u]);
                    assert(dist@[u] < level || dist@[u] == level);
                    if dist@[u] == level {
                        assert(frontier@.contains(u as usize));
                        assert(false);
                    }
                    assert(reachable_in(edges, start as int, u, dist@[u] as nat));
                    assert(reachable_in(edges, start as int, v, (dist@[u] + 1) as nat));
                    lemma_reachable_mono(
                        edges,
                        start as int,
                        v,
                        (dist@[u] + 1) as nat,
                        level as nat,
                    );
                }
            }
            assert forall|v: int| 0 <= v < n implies (#[trigger] visited@[v] <==> reachable(
                edges,
                start as int,
                v,
            )) by {
                if visited@[v] {
                    assert(reachable_in(edges, start as int, v, level as nat));
                }
                if reachable(edges, start as int, v) {
                    let m = choose|m: nat| reachable_in(edges, start as int, v, m);
                    lemma_reachable_fixpoint(edges, start as int, level as nat, m);
                }
            }
        }
        (visited, dist, pred)
    }

    /// The index of the first declared edge from `u` to `w`, if any.
    fn find_first_edge(&self, u: usize, w: usize) -> (r: Option<usize>)
        ensures
            match r {
                Some(j) => j as int == first_edge(self.edges_view(), u as int, w as int, 0) && (
                j as int) < self.edges_view().len(),
                None => first_edge(self.edges_view(), u as int, w as int, 0)
                    == self.edges_view().len(),
            },
    {
        let ghost edges = self.edges_view();
        let ne = self.edges.len();
        let mut j: usize = 0;
        while j < ne
            invariant
                0 <= j <= ne,
                ne == self.edges@.len(),
                edges == self.edges_view(),
                first_edge(edges, u as int, w as int, 0) == first_edge(
                    edges,
                    u as int,
                    w as int,
                    j as int,
                ),
            decreases ne - j,
        {
            if self.edges[j].from == u && self.edges[j].to == w {
                proof {
                    assert(edges[j as int] == (
                        self.edges@[j as int].from as int,
                        self.edges@[j as int].to as int,
                        self.edges@[j as int].calc,
                    ));
                }
                return Some(j);
            }
            proof {
                assert(edges[j as int] == (
                    self.edges@[j as int].from as int,
                    self.edges@[j as int].to as int,
                    self.edges@[j as int].calc,
                ));
            }
            j += 1;
        }
        None
    }

    /// Converts `x`, a value in the unit of node `start`, into the unit
    /// named `end`: finds a minimal-hop path through the graph and evaluates
    /// each edge's expression over the running value in turn. Distinguishes
    /// a name the graph never declared (`EndDoesntExist`) from one that no
    /// route reaches (`NoPathFound`) and from an evaluation that failed on
    /// the way (`CalculationFailed`).
    #[verifier::rlimit(100)]
    pub fn convert<'a>(&self, start: usize, end: &'a str, x: Decimal) -> (r: Result<
        Decimal,
        ConversionError<'a>,
    >)
        requires
            self.wf(),
            start < self.names_view().len(),
        ensures
            ({
                let names = self.names_view();
                let edges = self.edges_view();
                &&& (!(exists|t: int| 0 <= t < names.len() && names[t] == end@) ==> (r matches Err(
                    e,
                ) && e matches ConversionError::EndDoesntExist { end: e2 } && e2@ == end@))
                &&& (((exists|t: int| 0 <= t < names.len() && names[t] == end@) && !(exists|t: int|
                    0 <= t < names.len() && names[t] == end@ && reachable(edges, start as int, t)))
                    ==> r == Err::<Decimal, ConversionError<'a>>(ConversionError::NoPathFound))
                &&& ((exists|t: int|
                    0 <= t < names.len() && names[t] == end@ && reachable(edges, start as int, t))
                    ==> (exists|p: Seq<int>|
                    {
                        &&& #[trigger] is_path(edges, p, start as int)
                        &&& 0 <= p.last() < names.len()
                        &&& names[p.last()] == end@
                        &&& (p.len() >= 2 ==> !(exists|t: int|
                            0 <= t < names.len() && names[t] == end@ && reachable_in(
                                edges,
                                start as int,
                                t,
                                (p.len() - 2) as nat,
                            )))
                        &&& r == (match chain_eval(edges, p, x) {
                            Some(v) => Ok::<Decimal, ConversionError<'a>>(v),
                            None => Err::<Decimal, ConversionError<'a>>(
                                ConversionError::CalculationFailed,
                            ),
                        })
                    }))
            }),
    {
        let ghost names = self.names_view();
        let ghost edges = self.edges_view();
        let t = match self.get_node_by_name(end) {
            None => {
                proof {
                    if exists|t2: int| 0 <= t2 < names.len() && names[t2] == end@ {
                        let t2 = choose|t2: int| 0 <= t2 < names.len() && names[t2] == end@;
                        assert(names.contains(end@));
                    }
                }
                return Err(ConversionError::EndDoesntExist { end });
            },
            Some(t) => t,
        };
        let n = self.names.len();
        let (visited, dist, pred) = self.bfs(start);
        proof {
            assert forall|t2: int| 0 <= t2 < names.len() && names[t2] == end@ implies t2
                == t as int by {
                if t2 != t as int {
                    if t2 < t as int {
                        assert(names[t2] != names[t as int]);
                    } else {
                        assert(names[t as int] != names[t2]);
                    }
                }
            }
        }
        if !visited[t] {
            proof {
                assert(!reachable(edges, start as int, t as int));
            }
            return Err(ConversionError::NoPathFound);
        }
        // walk predecessors back to the start
        let mut rev: Vec<usize> = Vec::new();
        rev.push(t);
        let mut cur = t;
        let ghost d = dist@[t as int] as int;
        while dist[cur] > 0
            invariant
                (cur as int) < n,
                n == names.len(),
                edges == self.edges_view(),
                names == self.names_view(),
                self.wf(),
                start < n,
                visited@.len() == n && dist@.len() == n && pred@.len() == n,
                visited@[start as int] && dist@[start as int] == 0,
                forall|v: int|
                    0 <= v < n && #[trigger] visited@[v] && v != start ==> dist@[v] > 0 && (
                    pred@[v] as int) < n && visited@[pred@[v] as int] && dist@[pred@[v] as int] + 1
                        == dist@[v] && has_edge(edges, pred@[v] as int, v),
                forall|v: int|
                    0 <= v < n && #[trigger] visited@[v] && dist@[v] == 0 ==> v == start,
                visited@[cur as int],
                d == dist@[t as int],
                rev@.len() >= 1,
                rev@[0] == t,
                rev@.last() == cur,
                rev@.len() - 1 == d - dist@[cur as int],
                forall|i: int|
                    0 <= i < rev@.len() ==> ((#[trigger] rev@[i]) as int) < n
                        && visited@[rev@[i] as int] && dist@[rev@[i] as int] == d - i,
                forall|i: int|
                    0 <= i < rev@.len() - 1 ==> has_edge(
                        edges,
                        rev@[i + 1] as int,
                        (#[trigger] rev@[i]) as int,
                    ),
            decreases dist@[cur as int],
        {
            let p = pred[cur];
            rev.push(p);
            cur = p;
        }
        proof {
            assert(cur == start);
            assert(rev@.len() == d + 1);
        }
        // reverse into the forward path
        let m = rev.len();
        let mut path: Vec<usize> = Vec::new();
        let mut i: usize = 0;
        while i < m
            invariant
                0 <= i <= m,
                m == rev@.len(),
                path@.len() == i,
                forall|j: int| 0 <= j < i ==> (#[trigger] path@[j]) == rev@[m - 1 - j],
            decreases m - i,
        {
            path.push(rev[m - 1 - i]);
            i += 1;
        }
        let ghost pv = path_view_of(path@);
        proof {
            assert(pv.len() == d + 1);
            assert(pv[0] == start as int);
            assert(pv.last() == t as int);
            assert forall|j: int| 0 <= j < pv.len() - 1 implies has_edge(
                edges,
                pv[j],
                #[trigger] pv[j + 1],
            ) by {
                assert(path@[j] == rev@[m - 1 - j]);
                assert(path@[j + 1] == rev@[m - 1 - (j + 1)]);
                assert(has_edge(edges, rev@[(m - 2 - j) + 1] as int, rev@[m - 2 - j] as int));
            }
            assert(is_path(edges, pv, start as int));
            if d >= 1 {
                assert(!reachable_in(edges, start as int, t as int, (d - 1) as nat));
            }
        }
        // fold the edge expressions along the path
        let plen = path.len();
        let mut value = x;
        let mut i2: usize = 0;
        proof {
            assert(pv.skip(0) =~= pv);
        }
        while i2 + 1 < plen
            invariant
                0 <= i2 < plen,
                plen == path@.len(),
                pv == path_view_of(path@),
                edges == self.edges_view(),
                names == self.names_view(),
                self.wf(),
                start < n,
                n == names.len(),
                chain_eval(edges, pv, x) == chain_eval(edges, pv.skip(i2 as int), value),
                is_path(edges, pv, start as int),
                pv.len() >= 1 && pv[0] == start as int && pv.last() == t as int && (t as int) < n,
                names[t as int] == end@,
                reachable(edges, start as int, t as int),
                forall|t2: int| 0 <= t2 < names.len() && names[t2] == end@ ==> t2 == t as int,
                d == pv.len() - 1,
                d >= 1 ==> !reachable_in(edges, start as int, t as int, (d - 1) as nat),
            decreases plen - i2,
        {
            let u = path[i2];
            let w = path[i2 + 1];
            proof {
                assert(has_edge(edges, pv[i2 as int], pv[i2 as int + 1]));
            }
            let j = match self.find_first_edge(u, w) {
                Some(j) => j,
                None => {
                    proof {
                        lemma_first_edge(edges, u as int, w as int, 0);
                        let je = choose|je: int|
                            0 <= je < edges.len() && (#[trigger] edges[je]).0 == u as int
                                && edges[je].1 == w as int;
                        assert(false);
                    }
                    return Err(ConversionError::CalculationFailed);
                },
            };
            let step = self.edges[j].calc.evaluate(value);
            proof {
                assert(edges[j as int] == (
                    self.edges@[j as int].from as int,
                    self.edges@[j as int].to as int,
                    self.edges@[j as int].calc,
                ));
                let tail = pv.skip(i2 as int);
                assert(tail[0] == pv[i2 as int] == u as int);
                assert(tail[1] == pv[i2 as int + 1] == w as int);
                assert(first_edge(edges, tail[0], tail[1], 0) == j as int);
                assert(tail.skip(1) =~= pv.skip(i2 as int + 1));
            }
            match step {
                Some(y) => {
                    value = y;
                },
                None => {
                    proof {
                        assert(chain_eval(edges, pv, x) is None);
                    }
            proof {
                lemma_no_closer_target(names, edges, start as int, t as int, end@, pv);
                assert(is_path(edges, pv, start as int));
            }
                    return Err(ConversionError::CalculationFailed);
                },
            }
            i2 += 1;
        }
        proof {
            assert(i2 == plen - 1);
            assert(pv.skip(i2 as int).len() == 1);
            assert(chain_eval(edges, pv, x) == Some(value));
        }
            proof {
                lemma_no_closer_target(names, edges, start as int, t as int, end@, pv);
                assert(is_path(edges, pv, start as int));
            }
        Ok(value)
    }
}

} // verus!
