//! Environment markers: parsing, canonical text and evaluation.

use std::collections::{HashMap, HashSet};
use std::hash::{Hash, Hasher};
use std::str::FromStr;

use vstd::prelude::*;

use crate::chars;
use crate::clause::{self, Operator};
use crate::evaluation::{self, Failure, Value};
use crate::marker_grammar::{self, MarkerOp, Operand, Tree};
use crate::names;
use crate::order::{self, Sign};
use crate::outside;
use crate::specifiers::Specifier;
use crate::text::{self, Class};
use crate::tokenizer::{self, ParserSyntaxError, Rule, Tokenizer};

verus! {

/// An operand of a comparison: an environment variable or a text.
#[derive(Debug, PartialEq, Eq)]
pub enum MarkerVar {
    Variable(String),
    Value(String),
}

impl View for MarkerVar {
    type V = Operand;

    open spec fn view(&self) -> Operand {
        match self {
            MarkerVar::Variable(t) => Operand::Variable(t@),
            MarkerVar::Value(t) => Operand::Value(t@),
        }
    }
}

impl Clone for MarkerVar {
    fn clone(&self) -> (r: MarkerVar)
        ensures
            r@ == self@,
    {
        match self {
            MarkerVar::Variable(t) => MarkerVar::Variable(chars::copy(t)),
            MarkerVar::Value(t) => MarkerVar::Value(chars::copy(t)),
        }
    }
}

/// A part of a marker: a comparison, a marker in parentheses, or a word between two of these.
#[derive(Debug, PartialEq, Eq)]
pub enum MarkerExpr {
    Item { lhs: MarkerVar, op: MarkerOp, rhs: MarkerVar },
    List(Vec<MarkerExpr>),
    And,
    Or,
}

/// What a part of a marker says.
pub open spec fn tree(e: MarkerExpr) -> Tree
    decreases e,
{
    match e {
        MarkerExpr::Item { lhs, op, rhs } => Tree::Item { lhs: lhs@, op, rhs: rhs@ },
        MarkerExpr::List(l) => Tree::List(
            Seq::new(
                l@.len(),
                |i: int|
                    if 0 <= i < l@.len() {
                        tree(l@[i])
                    } else {
                        Tree::And
                    },
            ),
        ),
        MarkerExpr::And => Tree::And,
        MarkerExpr::Or => Tree::Or,
    }
}

/// What the parts of a marker say.
pub open spec fn trees(l: Seq<MarkerExpr>) -> Seq<Tree> {
    Seq::new(l.len(), |i: int| tree(l[i]))
}

proof fn lemma_tree_list(l: Vec<MarkerExpr>)
    ensures
        tree(MarkerExpr::List(l)) == Tree::List(trees(l@)),
{
    match tree(MarkerExpr::List(l)) {
        Tree::List(a) => {
            assert(a =~= trees(l@));
        },
        _ => {},
    }
}

proof fn lemma_trees_push(l: Seq<MarkerExpr>, e: MarkerExpr)
    ensures
        trees(l.push(e)) == trees(l).push(tree(e)),
{
    assert(trees(l.push(e)) =~= trees(l).push(tree(e)));
}

/// A copy of a part of a marker.
fn copy_expr(e: &MarkerExpr) -> (r: MarkerExpr)
    ensures
        tree(r) == tree(*e),
    decreases e,
{
    match e {
        MarkerExpr::Item { lhs, op, rhs } => MarkerExpr::Item {
            lhs: lhs.clone(),
            op: *op,
            rhs: rhs.clone(),
        },
        MarkerExpr::List(l) => {
            let inner = copy_exprs(l);
            proof {
                lemma_tree_list(*l);
                lemma_tree_list(inner);
            }
            MarkerExpr::List(inner)
        },
        MarkerExpr::And => MarkerExpr::And,
        MarkerExpr::Or => MarkerExpr::Or,
    }
}

/// Copies of the parts of a marker.
fn copy_exprs(l: &Vec<MarkerExpr>) -> (r: Vec<MarkerExpr>)
    ensures
        trees(r@) == trees(l@),
    decreases l,
{
    let mut out: Vec<MarkerExpr> = Vec::new();
    let mut i: usize = 0;
    assert(trees(out@) =~= trees(l@).take(0));
    while i < l.len()
        invariant
            i <= l@.len(),
            trees(out@) == trees(l@).take(i as int),
        decreases l@.len() - i,
    {
        let e = copy_expr(&l[i]);
        proof {
            lemma_trees_push(out@, e);
            assert(trees(l@).take(i + 1) =~= trees(l@).take(i as int).push(tree(l@[i as int])));
        }
        out.push(e);
        i += 1;
    }
    assert(trees(l@).take(i as int) =~= trees(l@));
    out
}

impl Clone for MarkerExpr {
    fn clone(&self) -> (r: MarkerExpr)
        ensures
            tree(r) == tree(*self),
    {
        copy_expr(self)
    }
}

// --- Quoted texts. ---

/// The number that a digit stands for, if it is one.
fn digit_in(base: u32, c: char) -> (r: Option<u32>)
    requires
        base == 8 || base == 16,
    ensures
        match r {
            Some(n) => marker_grammar::is_digit_of(base as nat, c) && n == marker_grammar::digit_of(
                c,
            ) && n < base,
            None => !marker_grammar::is_digit_of(base as nat, c),
        },
{
    if base == 8 {
        if '0' <= c && c <= '7' {
            Some(c as u32 - 48)
        } else {
            None
        }
    } else {
        let f = chars::lower(c);
        if chars::is_digit(c) {
            Some(c as u32 - 48)
        } else if 'a' <= f && f <= 'f' {
            Some(f as u32 - 97 + 10)
        } else {
            None
        }
    }
}

/// The digits at the head of a text, up to some number of them: how many there are, and the
/// number that they stand for.
fn scan_digits(base: u32, s: &[char], most: usize) -> (r: (usize, u64))
    requires
        base == 8 || base == 16,
        most <= 8,
    ensures
        r.0 == marker_grammar::digits_len(base as nat, s@, most as nat),
        r.0 <= s@.len(),
        r.0 <= most,
        r.1 == marker_grammar::number_of(base as nat, text::head(s@, r.0 as nat)),
        r.1 <= u32::MAX,
{
    let mut i: usize = 0;
    let mut n: u64 = 0;
    assert(s@.skip(0) =~= s@);
    assert(text::head(s@, 0) =~= Seq::empty());
    let ghost limits = seq![
        1u64,
        16u64,
        256u64,
        4096u64,
        65536u64,
        1048576u64,
        16777216u64,
        268435456u64,
        4294967296u64,
    ];
    while i < most && i < s.len()
        invariant
            i <= s@.len(),
            i <= most <= 8,
            base == 8 || base == 16,
            marker_grammar::digits_len(base as nat, s@, most as nat) == i
                + marker_grammar::digits_len(
                base as nat,
                s@.skip(i as int),
                (most - i) as nat,
            ),
            n == marker_grammar::number_of(base as nat, text::head(s@, i as nat)),
            n < limits[i as int],
            limits == seq![
                1u64,
                16u64,
                256u64,
                4096u64,
                65536u64,
                1048576u64,
                16777216u64,
                268435456u64,
                4294967296u64,
            ],
        decreases s@.len() - i,
    {
        match digit_in(base, s[i]) {
            Some(d) => {
                proof {
                    let h = text::head(s@, (i + 1) as nat);
                    assert(h.drop_last() =~= text::head(s@, i as nat));
                    assert(s@.skip(i as int).skip(1) =~= s@.skip(i + 1));
                    assert(limits[i + 1] == 16 * limits[i as int]);
                }
                if base == 8 {
                    n = n * 8 + d as u64;
                } else {
                    n = n * 16 + d as u64;
                }
                i += 1;
            },
            None => {
                return (i, n);
            },
        }
    }
    (i, n)
}

/// What a number in an escape stands for.
fn numbered(base: u32, s: &[char], from: usize, most: usize, exact: bool) -> (r: Option<
    (char, usize),
>)
    requires
        base == 8 || base == 16,
        most <= 8,
        from <= s@.len(),
    ensures
        ({
            let n = marker_grammar::digits_len(
                base as nat,
                text::after(s@, from as nat),
                most as nat,
            );
            match r {
                Some((c, m)) => {
                    &&& exact ==> n == most
                    &&& marker_grammar::numbered(base as nat, s@, from as nat, n) == Some(
                        (seq![c], m as nat),
                    )
                    &&& from <= m <= s@.len()
                },
                None => (exact && n != most) || marker_grammar::numbered(
                    base as nat,
                    s@,
                    from as nat,
                    n,
                ) is None,
            }
        }),
{
    let rest = chars::skip(s, from);
    let (n, value) = scan_digits(base, rest, most);
    if exact && n != most {
        return None;
    }
    assert(s.len() == s@.len());
    match char::from_u32(value as u32) {
        Some(c) => Some((c, from + n)),
        None => None,
    }
}

/// What an escape stands for and how long it is.
fn read_escape(s: &[char]) -> (r: Option<(Vec<char>, usize)>)
    requires
        s@.len() > 0,
    ensures
        match r {
            Some((t, n)) => marker_grammar::escape(s@) == Some((t@, n as nat)) && 0 < n <= s@.len(),
            None => marker_grammar::escape(s@) is None,
        },
{
    if s.len() < 2 {
        return None;
    }
    let c = s[1];
    let plain = if c == '\\' || c == '\'' || c == '"' {
        c
    } else if c == '\n' {
        let none: Vec<char> = Vec::new();
        assert(none@ =~= seq![]);
        return Some((none, 2));
    } else if c == 'a' {
        '\u{7}'
    } else if c == 'b' {
        '\u{8}'
    } else if c == 'f' {
        '\u{c}'
    } else if c == 'n' {
        '\n'
    } else if c == 'r' {
        '\r'
    } else if c == 't' {
        '\t'
    } else if c == 'v' {
        '\u{b}'
    } else {
        let found = if '0' <= c && c <= '7' {
            numbered(8, s, 1, 3, false)
        } else if c == 'x' {
            numbered(16, s, 2, 2, true)
        } else if c == 'u' {
            numbered(16, s, 2, 4, true)
        } else if c == 'U' {
            numbered(16, s, 2, 8, true)
        } else if c == 'N' {
            None
        } else {
            let both = vec!['\\', c];
            assert(both@ =~= seq!['\\', c]);
            return Some((both, 2));
        };
        return match found {
            Some((d, n)) => {
                let one = vec![d];
                assert(one@ =~= seq![d]);
                Some((one, n))
            },
            None => None,
        };
    };
    let one = vec![plain];
    assert(one@ =~= seq![plain]);
    Some((one, 2))
}

/// A text with its escapes replaced by what they stand for.
fn unescape(s: &[char]) -> (r: Option<String>)
    ensures
        match r {
            Some(t) => marker_grammar::unescape(s@) == Some(t@),
            None => marker_grammar::unescape(s@) is None,
        },
{
    let mut out = String::new();
    let mut i: usize = 0;
    assert(s@.skip(0) =~= s@);
    assert(marker_grammar::unescape(s@) == marker_grammar::prefixed(
        out@,
        marker_grammar::unescape(s@.skip(0)),
    )) by {
        if let Some(t) = marker_grammar::unescape(s@) {
            assert(out@ + t =~= t);
        }
    }
    while i < s.len()
        invariant
            i <= s@.len(),
            marker_grammar::unescape(s@) == marker_grammar::prefixed(
                out@,
                marker_grammar::unescape(s@.skip(i as int)),
            ),
        decreases s@.len() - i,
    {
        let ghost before = out@;
        let ghost here = s@.skip(i as int);
        if s[i] != '\\' {
            out.push(s[i]);
            proof {
                assert(here.skip(1) =~= s@.skip(i + 1));
                if let Some(t) = marker_grammar::unescape(s@.skip(i + 1)) {
                    assert(before + (seq![s@[i as int]] + t) =~= out@ + t);
                }
            }
            i += 1;
        } else {
            match read_escape(chars::skip(s, i)) {
                Some((t, n)) => {
                    chars::push_chars(&mut out, &t);
                    proof {
                        assert(text::after(here, n as nat) =~= s@.skip(i + n));
                        if let Some(u) = marker_grammar::unescape(s@.skip(i + n)) {
                            assert(before + (t@ + u) =~= out@ + u);
                        }
                    }
                    i = i + n;
                },
                None => {
                    return None;
                },
            }
        }
    }
    assert(s@.skip(i as int) =~= Seq::empty());
    assert(out@ + Seq::<char>::empty() =~= out@);
    Some(out)
}

// --- Parsing. ---

/// Reads spaces and tabs.
pub(crate) fn skip_blank(tok: &mut Tokenizer)
    requires
        old(tok).wf(),
        old(tok)@.next is None,
        old(tok)@.index <= old(tok)@.source.len(),
    ensures
        tokenizer::reached(
            *old(tok),
            *final(tok),
            marker_grammar::blank(old(tok)@.source, old(tok)@.index),
        ),
{
    proof {
        text::lemma_run_len(Class::Blank, tok@.rest());
    }
    tok.consume(Rule::Ws);
}

/// A name with underscores for dots.
fn undotted(s: &[char]) -> (r: String)
    ensures
        r@ == marker_grammar::undotted(s@),
{
    let mut out = String::new();
    let mut i: usize = 0;
    assert(out@ =~= marker_grammar::undotted(s@).take(0));
    while i < s.len()
        invariant
            i <= s@.len(),
            out@ == marker_grammar::undotted(s@).take(i as int),
        decreases s@.len() - i,
    {
        if s[i] == '.' {
            out.push('_');
        } else {
            out.push(s[i]);
        }
        i += 1;
        assert(out@ =~= marker_grammar::undotted(s@).take(i as int));
    }
    assert(out@ =~= marker_grammar::undotted(s@));
    out
}

/// The environment variable that a name stands for.
fn process_env_var(name: &str) -> (r: MarkerVar)
    ensures
        r@ == Operand::Variable(marker_grammar::variable(name@)),
{
    let plain = undotted(&chars::chars_of(name));
    if chars::same_text(&plain, "python_implementation") {
        MarkerVar::Variable(chars::copy("platform_python_implementation"))
    } else {
        MarkerVar::Variable(plain)
    }
}

/// What a text between quotes says.
fn process_python_str(quoted: &str) -> (r: Option<MarkerVar>)
    requires
        quoted@.len() >= 2,
    ensures
        match r {
            Some(v) => marker_grammar::unescape(marker_grammar::inside(quoted@)) == Some(
                evaluation::operand(v@),
            ) && v@ is Value,
            None => marker_grammar::unescape(marker_grammar::inside(quoted@)) is None,
        },
{
    let cs = chars::chars_of(quoted);
    let inner = vstd::slice::slice_subrange(cs.as_slice(), 1, cs.len() - 1);
    match unescape(inner) {
        Some(t) => Some(MarkerVar::Value(t)),
        None => None,
    }
}

/// Reads an operand.
fn parse_marker_var(tok: &mut Tokenizer) -> (r: Result<MarkerVar, ParserSyntaxError>)
    requires
        old(tok).wf(),
        old(tok)@.next is None,
        old(tok)@.index <= old(tok)@.source.len(),
    ensures
        ({
            let found = marker_grammar::read_var(old(tok)@.source, old(tok)@.index);
            match r {
                Ok(v) => found matches Ok((t, i)) && t == v@ && tokenizer::reached(
                    *old(tok),
                    *final(tok),
                    i,
                ),
                Err(e) => found matches Err(f) && f == e.error() && e.source@ == old(tok)@.source,
            }
        }),
{
    proof {
        reveal(marker_grammar::read_var);
    }
    if tok.check(Rule::Variable) {
        let token = tok.read();
        Ok(process_env_var(&token.text))
    } else if tok.check(Rule::QuotedString) {
        let token = tok.read();
        let end: usize = tok.position();
        match process_python_str(&token.text) {
            Some(v) => Ok(v),
            None => Err(
                tok.syntax_error("Invalid quoted string", Some(token.position), Some(end)),
            ),
        }
    } else {
        Err(tok.syntax_error("Expected a marker variable or quoted string", None, None))
    }
}

/// Reads an operator.
fn parse_marker_op(tok: &mut Tokenizer) -> (r: Result<MarkerOp, ParserSyntaxError>)
    requires
        old(tok).wf(),
        old(tok)@.next is None,
        old(tok)@.index <= old(tok)@.source.len(),
    ensures
        ({
            let found = marker_grammar::read_op(old(tok)@.source, old(tok)@.index);
            match r {
                Ok(op) => found matches Ok((t, i)) && t == op && tokenizer::reached(
                    *old(tok),
                    *final(tok),
                    i,
                ),
                Err(e) => found matches Err(f) && f == e.error() && e.source@ == old(tok)@.source,
            }
        }),
{
    proof {
        reveal(marker_grammar::read_op);
    }
    if tok.check(Rule::In) {
        tok.read();
        return Ok(MarkerOp::In);
    }
    if tok.check(Rule::Not) {
        tok.read();
        proof {
            assert("Expected "@ + "whitespace after 'not'"@ =~= "Expected whitespace after 'not'"@)
                by {
                reveal_strlit("Expected ");
                reveal_strlit("whitespace after 'not'");
                reveal_strlit("Expected whitespace after 'not'");
            }
            assert("Expected "@ + "'in' after 'not'"@ =~= "Expected 'in' after 'not'"@) by {
                reveal_strlit("Expected ");
                reveal_strlit("'in' after 'not'");
                reveal_strlit("Expected 'in' after 'not'");
            }
        }
        if let Err(e) = tok.expect(Rule::Ws, "whitespace after 'not'") {
            return Err(e);
        }
        if let Err(e) = tok.expect(Rule::In, "'in' after 'not'") {
            return Err(e);
        }
        return Ok(MarkerOp::NotIn);
    }
    if tok.check(Rule::Op) {
        let token = tok.read();
        let cs = chars::chars_of(&token.text);
        proof {
            clause::lemma_operator_head(tok@.source.skip(old(tok)@.index as int));
        }
        match clause::read_operator(&cs) {
            Some(op) => {
                return Ok(MarkerOp::Version(op));
            },
            None => {},
        }
    }
    Err(
        tok.syntax_error(
            "Expected marker operator, one of <=, <, !=, ==, >=, >, ~=, ===, in, not in",
            None,
            None,
        ),
    )
}

/// Reads a comparison.
fn parse_marker_item(tok: &mut Tokenizer) -> (r: Result<MarkerExpr, ParserSyntaxError>)
    requires
        old(tok).wf(),
        old(tok)@.next is None,
        old(tok)@.index <= old(tok)@.source.len(),
    ensures
        ({
            let found = marker_grammar::read_item(old(tok)@.source, old(tok)@.index);
            match r {
                Ok(v) => found matches Ok((t, i)) && t == tree(v) && tokenizer::reached(
                    *old(tok),
                    *final(tok),
                    i,
                ),
                Err(e) => found matches Err(f) && f == e.error() && e.source@ == old(tok)@.source,
            }
        }),
{
    proof {
        reveal(marker_grammar::read_item);
    }
    skip_blank(tok);
    let lhs = match parse_marker_var(tok) {
        Ok(v) => v,
        Err(e) => return Err(e),
    };
    skip_blank(tok);
    let op = match parse_marker_op(tok) {
        Ok(op) => op,
        Err(e) => return Err(e),
    };
    skip_blank(tok);
    let rhs = match parse_marker_var(tok) {
        Ok(v) => v,
        Err(e) => return Err(e),
    };
    skip_blank(tok);
    Ok(MarkerExpr::Item { lhs, op, rhs })
}

/// Reads a comparison or a marker in parentheses.
fn parse_marker_atom(tok: &mut Tokenizer) -> (r: Result<MarkerExpr, ParserSyntaxError>)
    requires
        old(tok).wf(),
        old(tok)@.next is None,
        old(tok)@.index <= old(tok)@.source.len(),
    ensures
        ({
            let found = marker_grammar::read_atom(old(tok)@.source, old(tok)@.index);
            match r {
                Ok(v) => found matches Ok((t, i)) && t == tree(v) && tokenizer::reached(
                    *old(tok),
                    *final(tok),
                    i,
                ),
                Err(e) => found matches Err(f) && f == e.error() && e.source@ == old(tok)@.source,
            }
        }),
    decreases old(tok)@.source.len() - old(tok)@.index, 0nat,
{
    skip_blank(tok);
    let open: usize = tok.position();
    if tok.check(Rule::LeftParenthesis) {
        tok.read();
        skip_blank(tok);
        let inner = match parse_marker(tok) {
            Ok(l) => l,
            Err(e) => return Err(e),
        };
        skip_blank(tok);
        if !tok.check(Rule::RightParenthesis) {
            return Err(
                tok.syntax_error(
                    "Expected matching RIGHT_PARENTHESIS for LEFT_PARENTHESIS, after marker expression",
                    Some(open),
                    None,
                ),
            );
        }
        tok.read();
        skip_blank(tok);
        proof {
            lemma_tree_list(inner);
        }
        return Ok(MarkerExpr::List(inner));
    }
    let item = match parse_marker_item(tok) {
        Ok(v) => v,
        Err(e) => return Err(e),
    };
    skip_blank(tok);
    Ok(item)
}

/// Reads a marker: comparisons and markers in parentheses with `and` or `or` between them.
pub(crate) fn parse_marker(tok: &mut Tokenizer) -> (r: Result<Vec<MarkerExpr>, ParserSyntaxError>)
    requires
        old(tok).wf(),
        old(tok)@.next is None,
        old(tok)@.index <= old(tok)@.source.len(),
    ensures
        ({
            let found = marker_grammar::read_marker(old(tok)@.source, old(tok)@.index);
            match r {
                Ok(l) => found matches Ok((t, i)) && t == trees(l@) && tokenizer::reached(
                    *old(tok),
                    *final(tok),
                    i,
                ),
                Err(e) => found matches Err(f) && f == e.error() && e.source@ == old(tok)@.source,
            }
        }),
    decreases old(tok)@.source.len() - old(tok)@.index, 1nat,
{
    let ghost s = tok@.source;
    let ghost start = tok@.index;
    let first = match parse_marker_atom(tok) {
        Ok(v) => v,
        Err(e) => return Err(e),
    };
    let ghost t = tree(first);
    let mut l: Vec<MarkerExpr> = Vec::new();
    l.push(first);
    assert(trees(l@) =~= seq![t]);
    while tok.check(Rule::BoolOp)
        invariant
            tok.wf(),
            tok@.next is None,
            tok@.source == s,
            s == old(tok)@.source,
            start == old(tok)@.index,
            start <= tok@.index <= s.len(),
            marker_grammar::read_marker(s, start) == marker_grammar::read_more(
                s,
                tok@.index,
                trees(l@),
            ),
        decreases s.len() - tok@.index,
    {
        let ghost here = tok@.index;
        let token = tok.read();
        let ghost n = token.text@.len();
        proof {
            tokenizer::lemma_joiner(text::after(s, here));
        }
        let right = match parse_marker_atom(tok) {
            Ok(v) => v,
            Err(e) => return Err(e),
        };
        let joiner = if chars::same_text(&token.text, "or") {
            MarkerExpr::Or
        } else {
            MarkerExpr::And
        };
        proof {
            lemma_trees_push(l@, joiner);
            lemma_trees_push(l@.push(joiner), right);
        }
        l.push(joiner);
        l.push(right);
    }
    Ok(l)
}

/// Reads a marker that is all of the source.
fn parse_full_marker(tok: &mut Tokenizer) -> (r: Result<Vec<MarkerExpr>, ParserSyntaxError>)
    requires
        old(tok).wf(),
        old(tok)@.next is None,
        old(tok)@.index == 0,
    ensures
        ({
            let found = marker_grammar::read_full(old(tok)@.source);
            match r {
                Ok(l) => found matches Ok(t) && t == trees(l@),
                Err(e) => found matches Err(f) && f == e.error() && e.source@ == old(tok)@.source,
            }
        }),
{
    let l = match parse_marker(tok) {
        Ok(l) => l,
        Err(e) => return Err(e),
    };
    proof {
        assert("Expected "@ + "end of marker expression"@ =~= "Expected end of marker expression"@)
            by {
            reveal_strlit("Expected ");
            reveal_strlit("end of marker expression");
            reveal_strlit("Expected end of marker expression");
        }
    }
    match tok.expect(Rule::End, "end of marker expression") {
        Ok(_) => Ok(l),
        Err(e) => Err(e),
    }
}

// --- Normal form. ---

/// Whether an operand is the variable for extras.
fn is_extra(v: &MarkerVar) -> (r: bool)
    ensures
        r == marker_grammar::is_extra(v@),
{
    match v {
        MarkerVar::Variable(t) => chars::same_text(t, "extra"),
        MarkerVar::Value(_) => false,
    }
}

/// The operands of a comparison, with a text that is compared with `extra` normalized as a
/// name.
fn normalize_item(lhs: &MarkerVar, rhs: &MarkerVar) -> (r: (MarkerVar, MarkerVar))
    ensures
        forall|op: MarkerOp| #[trigger]
            marker_grammar::normal(Tree::Item { lhs: lhs@, op, rhs: rhs@ }) == (Tree::Item {
                lhs: r.0@,
                op,
                rhs: r.1@,
            }),
{
    match (lhs, rhs) {
        (MarkerVar::Variable(_), MarkerVar::Value(t)) => if is_extra(lhs) {
            return (lhs.clone(), MarkerVar::Value(names::canonicalize_name(t)));
        },
        (MarkerVar::Value(t), MarkerVar::Variable(_)) => if is_extra(rhs) {
            return (MarkerVar::Value(names::canonicalize_name(t)), rhs.clone());
        },
        _ => {},
    }
    (lhs.clone(), rhs.clone())
}

/// A part of a marker in normal form.
fn normalize_expr(e: &MarkerExpr) -> (r: MarkerExpr)
    ensures
        tree(r) == marker_grammar::normal(tree(*e)),
    decreases e,
{
    match e {
        MarkerExpr::Item { lhs, op, rhs } => {
            let (lhs, rhs) = normalize_item(lhs, rhs);
            MarkerExpr::Item { lhs, op: *op, rhs }
        },
        MarkerExpr::List(l) => {
            let inner = normalize_extra_values(l);
            proof {
                lemma_tree_list(*l);
                lemma_tree_list(inner);
            }
            MarkerExpr::List(inner)
        },
        MarkerExpr::And => MarkerExpr::And,
        MarkerExpr::Or => MarkerExpr::Or,
    }
}

/// The parts of a marker, each in normal form.
fn normalize_extra_values(l: &Vec<MarkerExpr>) -> (r: Vec<MarkerExpr>)
    ensures
        trees(r@) == marker_grammar::normal_list(trees(l@)),
    decreases l,
{
    let ghost all = trees(l@);
    let mut out: Vec<MarkerExpr> = Vec::new();
    let mut i: usize = 0;
    assert(trees(out@) =~= marker_grammar::normal_list(all.take(0)));
    while i < l.len()
        invariant
            i <= l@.len(),
            all == trees(l@),
            trees(out@) == marker_grammar::normal_list(all.take(i as int)),
        decreases l@.len() - i,
    {
        let e = normalize_expr(&l[i]);
        proof {
            assert(all.take(i + 1).drop_last() =~= all.take(i as int));
            assert(all.take(i + 1).last() == tree(l@[i as int]));
            lemma_trees_push(out@, e);
        }
        out.push(e);
        i += 1;
    }
    assert(all.take(i as int) =~= all);
    out
}

// --- Text. ---

/// Appends the text of an operand.
fn serialize_var(out: &mut String, v: &MarkerVar)
    ensures
        final(out)@ == old(out)@ + marker_grammar::operand_text(v@),
{
    match v {
        MarkerVar::Variable(t) => {
            out.push_str(t);
        },
        MarkerVar::Value(t) => {
            out.push('"');
            out.push_str(t);
            out.push('"');
        },
    }
    assert(out@ =~= old(out)@ + marker_grammar::operand_text(v@));
}

/// Appends the text of a part of a marker.
fn format_expr(out: &mut String, e: &MarkerExpr, first: bool)
    ensures
        final(out)@ == old(out)@ + marker_grammar::tree_text(tree(*e), first),
    decreases e, 0nat,
{
    match e {
        MarkerExpr::Item { lhs, op, rhs } => {
            serialize_var(out, lhs);
            out.push_str(" ");
            out.push_str(op.as_str());
            out.push_str(" ");
            serialize_var(out, rhs);
            assert(out@ =~= old(out)@ + marker_grammar::item_text(lhs@, *op, rhs@));
        },
        MarkerExpr::List(l) => {
            proof {
                lemma_tree_list(*l);
            }
            format_list(out, l, first);
        },
        MarkerExpr::And => {
            out.push_str("and");
        },
        MarkerExpr::Or => {
            out.push_str("or");
        },
    }
}

/// Appends the text of a marker.
fn format_list(out: &mut String, l: &Vec<MarkerExpr>, first: bool)
    ensures
        final(out)@ == old(out)@ + marker_grammar::list_text(trees(l@), first),
    decreases l, 0nat,
{
    let ghost all = trees(l@);
    if l.len() == 1 {
        assert(all[0] == tree(l@[0]));
        let single = match &l[0] {
            MarkerExpr::List(_) => true,
            MarkerExpr::Item { .. } => true,
            _ => false,
        };
        if single {
            format_expr(out, &l[0], first);
            return;
        }
    }
    if !first {
        out.push_str("(");
    }
    let ghost before = out@;
    let ghost ts = marker_grammar::texts(all);
    let mut i: usize = 0;
    assert(out@ =~= before + text::join(marker_grammar::texts(all.take(0)), " "@));
    while i < l.len()
        invariant
            i <= l@.len(),
            all == trees(l@),
            out@ == before + text::join(marker_grammar::texts(all.take(i as int)), " "@),
        decreases l@.len() - i,
    {
        let ghost start = out@;
        if i > 0 {
            out.push_str(" ");
        }
        format_expr(out, &l[i], false);
        proof {
            let p = marker_grammar::tree_text(tree(l@[i as int]), false);
            let done = marker_grammar::texts(all.take(i as int));
            assert(all.take(i + 1).drop_last() =~= all.take(i as int));
            assert(all.take(i + 1).last() == tree(l@[i as int]));
            assert(marker_grammar::texts(all.take(i + 1)) == done.push(p));
            lemma_texts_len(all.take(i as int));
            if i > 0 {
                text::lemma_join_push(done, p, " "@);
                assert(out@ =~= before + (text::join(done, " "@) + " "@ + p));
            } else {
                assert(done =~= Seq::empty());
                assert(text::join(done.push(p), " "@) == p);
                assert(out@ =~= before + p);
            }
        }
        i += 1;
    }
    assert(all.take(i as int) =~= all);
    if !first {
        out.push_str(")");
    }
    assert(out@ =~= old(out)@ + marker_grammar::list_text(all, first));
}

proof fn lemma_texts_len(l: Seq<Tree>)
    ensures
        marker_grammar::texts(l).len() == l.len(),
    decreases l.len(),
{
    if l.len() > 0 {
        lemma_texts_len(l.drop_last());
    }
}

// --- Environments. ---

/// The value of an environment variable: a text, or for some variables a set of texts.
#[derive(Debug, PartialEq, Eq)]
pub enum EnvValue {
    Str(String),
    StrSet(HashSet<String>),
}

/// What the value of an environment variable says.
pub open spec fn env_value(v: EnvValue) -> Value {
    match v {
        EnvValue::Str(t) => Value::Text(t@),
        EnvValue::StrSet(s) => Value::Texts(outside::texts(s@)),
    }
}

impl Clone for EnvValue {
    fn clone(&self) -> (r: EnvValue)
        ensures
            env_value(r) == env_value(*self),
    {
        match self {
            EnvValue::Str(t) => EnvValue::Str(chars::copy(t)),
            EnvValue::StrSet(s) => EnvValue::StrSet(outside::copy_set(s)),
        }
    }
}

/// What a marker is evaluated for, which decides the variables that are there without being
/// given.
#[derive(Debug, Clone, Copy, PartialEq, Eq, Structural)]
pub enum EvaluateContext {
    /// Metadata: an empty `extra`.
    Metadata,
    /// Lock files: empty sets `extras` and `dependency_groups`.
    LockFile,
    /// Anything else: nothing.
    Requirement,
}

/// Why a marker says nothing of an environment.
#[derive(Debug, Clone, PartialEq, Eq)]
pub enum MarkerError {
    /// The operator does not apply to the operands. Holds what is wrong.
    UndefinedComparison(String),
    /// The environment has no such variable. Holds its name.
    UndefinedEnvironmentName(String),
}

impl MarkerError {
    /// What the error says.
    pub open spec fn failure(self) -> Failure {
        match self {
            MarkerError::UndefinedComparison(m) => Failure::UndefinedComparison(m@),
            MarkerError::UndefinedEnvironmentName(k) => Failure::UndefinedEnvironmentName(k@),
        }
    }

    /// The message of this error.
    pub fn to_string(&self) -> (r: String)
        ensures
            r@ == match self.failure() {
                Failure::UndefinedComparison(m) => m,
                Failure::UndefinedEnvironmentName(k) => outside::quoted(k)
                    + " does not exist in evaluation environment."@,
            },
    {
        match self {
            MarkerError::UndefinedComparison(m) => chars::copy(m),
            MarkerError::UndefinedEnvironmentName(k) => {
                let mut out = outside::quote(k);
                out.push_str(" does not exist in evaluation environment.");
                out
            },
        }
    }
}

/// The value of a variable that is there without being given.
pub open spec fn default_value(context: EvaluateContext, key: Seq<char>) -> Option<Value> {
    match context {
        EvaluateContext::LockFile => if evaluation::is_set_key(key) {
            Some(Value::Texts(Set::empty()))
        } else {
            None
        },
        EvaluateContext::Metadata => if key == "extra"@ {
            Some(Value::Text(Seq::empty()))
        } else {
            None
        },
        EvaluateContext::Requirement => None,
    }
}

/// The value of a variable as markers see it: `extra` is normalized as a name, and a
/// `python_full_version` that ends in `+` gets a local label.
pub open spec fn prepared(key: Seq<char>, v: Option<Value>) -> Option<Value> {
    match v {
        Some(Value::Text(t)) => if key == "extra"@ {
            Some(Value::Text(names::canonical_name(t)))
        } else if key == "python_full_version"@ && text::ends_with(t, "+"@) {
            Some(Value::Text(t + "local"@))
        } else {
            v
        },
        _ => v,
    }
}

/// The environment that a map of texts gives.
pub open spec fn text_env(m: Map<String, String>) -> spec_fn(Seq<char>) -> Option<Value> {
    |key: Seq<char>|
        prepared(
            key,
            if outside::has_key(m, key) {
                Some(Value::Text(outside::value_of(m, key)@))
            } else {
                None
            },
        )
}

/// The environment that a map of values gives in a context.
pub open spec fn value_env(m: Map<String, EnvValue>, context: EvaluateContext) -> spec_fn(
    Seq<char>,
) -> Option<Value> {
    |key: Seq<char>|
        prepared(
            key,
            if outside::has_key(m, key) {
                Some(env_value(outside::value_of(m, key)))
            } else {
                default_value(context, key)
            },
        )
}

/// An environment: a map of texts, or a map of values in a context.
enum Environment<'a> {
    Texts(&'a HashMap<String, String>),
    Values(&'a HashMap<String, EnvValue>, EvaluateContext),
}

/// The value of a variable that was looked up.
enum Found<'a> {
    Text(String),
    Members(&'a HashSet<String>),
    Empty,
}

impl<'a> Found<'a> {
    spec fn value(self) -> Value {
        match self {
            Found::Text(t) => Value::Text(t@),
            Found::Members(s) => Value::Texts(outside::texts(s@)),
            Found::Empty => Value::Texts(Set::empty()),
        }
    }
}

/// Whether a variable holds a set of names.
fn is_set_key(key: &str) -> (r: bool)
    ensures
        r == evaluation::is_set_key(key@),
{
    chars::same_text(key, "extras") || chars::same_text(key, "dependency_groups")
}

/// Whether a variable holds a version.
fn is_version_key(key: &str) -> (r: bool)
    ensures
        r == evaluation::is_version_key(key@),
{
    chars::same_text(key, "implementation_version") || chars::same_text(key, "platform_release")
        || chars::same_text(key, "python_full_version") || chars::same_text(key, "python_version")
}

/// The text of a variable as markers see it.
fn prepare(key: &str, t: &str) -> (r: String)
    ensures
        prepared(key@, Some(Value::Text(t@))) == Some(Value::Text(r@)),
{
    if chars::same_text(key, "extra") {
        names::canonicalize_name(t)
    } else {
        let mut out = chars::copy(t);
        if chars::same_text(key, "python_full_version") && chars::ends_with(
            &chars::chars_of(t),
            "+",
        ) {
            out.push_str("local");
        }
        out
    }
}

impl<'a> Environment<'a> {
    spec fn env(self) -> spec_fn(Seq<char>) -> Option<Value> {
        match self {
            Environment::Texts(m) => text_env(m@),
            Environment::Values(m, context) => value_env(m@, context),
        }
    }

    /// The value of a variable.
    fn get(&self, key: &str) -> (r: Option<Found<'a>>)
        ensures
            match r {
                Some(f) => self.env()(key@) == Some(f.value()),
                None => self.env()(key@) is None,
            },
    {
        match self {
            Environment::Texts(m) => match outside::lookup(*m, key) {
                Some(t) => Some(Found::Text(prepare(key, t))),
                None => None,
            },
            Environment::Values(m, context) => match outside::lookup(*m, key) {
                Some(EnvValue::Str(t)) => Some(Found::Text(prepare(key, t))),
                Some(EnvValue::StrSet(s)) => Some(Found::Members(s)),
                None => match context {
                    EvaluateContext::LockFile => if is_set_key(key) {
                        Some(Found::Empty)
                    } else {
                        None
                    },
                    EvaluateContext::Metadata => if chars::same_text(key, "extra") {
                        let none = String::new();
                        assert(none@ =~= Seq::empty());
                        Some(Found::Text(prepare(key, &none)))
                    } else {
                        None
                    },
                    EvaluateContext::Requirement => None,
                },
            },
        }
    }
}

// --- Evaluation. ---

/// Whether an evaluation gave what it should.
spec fn gives(r: Result<bool, MarkerError>, f: Result<bool, Failure>) -> bool {
    match r {
        Ok(b) => f == Ok::<bool, Failure>(b),
        Err(e) => f == Err::<bool, Failure>(e.failure()),
    }
}

/// The specifier that an operator and a version make, if they make one.
fn make_specifier(op: MarkerOp, rhs: &str) -> (r: Option<Specifier>)
    ensures
        match r {
            Some(s) => evaluation::specifier_of(op, rhs@) == Some(s@),
            None => evaluation::specifier_of(op, rhs@) is None,
        },
{
    let mut t = chars::copy(op.as_str());
    t.push_str(rhs);
    match Specifier::parse(&t) {
        Ok(s) => Some(s),
        Err(_) => None,
    }
}

/// Compares two texts.
fn eval_op(lhs: &str, op: MarkerOp, rhs: &str, key: &str) -> (r: Result<bool, MarkerError>)
    ensures
        gives(r, evaluation::compare_texts(lhs@, op, rhs@, key@)),
{
    if is_version_key(key) {
        if let Some(spec) = make_specifier(op, rhs) {
            return Ok(spec.contains(lhs, Some(true)));
        }
    }
    let l = chars::chars_of(lhs);
    let r = chars::chars_of(rhs);
    let order = chars::compare_text(&l, &r);
    proof {
        order::lemma_text_order(lhs@, rhs@, rhs@);
    }
    match op {
        MarkerOp::In => Ok(chars::contains_text(&r, &l)),
        MarkerOp::NotIn => Ok(!chars::contains_text(&r, &l)),
        MarkerOp::Version(Operator::Below) => Ok(order == Sign::Before),
        MarkerOp::Version(Operator::AtMost) => Ok(order != Sign::After),
        MarkerOp::Version(Operator::Equal) => Ok(order == Sign::Same),
        MarkerOp::Version(Operator::NotEqual) => Ok(order != Sign::Same),
        MarkerOp::Version(Operator::AtLeast) => Ok(order != Sign::Before),
        MarkerOp::Version(Operator::Above) => Ok(order == Sign::After),
        MarkerOp::Version(Operator::Compatible) | MarkerOp::Version(Operator::Arbitrary) => {
            let mut m = chars::copy("Undefined ");
            m.push_str(&outside::quote(op.as_str()));
            m.push_str(" on ");
            m.push_str(&outside::quote(lhs));
            m.push_str(" and ");
            m.push_str(&outside::quote(rhs));
            m.push_str(".");
            Err(MarkerError::UndefinedComparison(m))
        },
    }
}

/// Whether a set holds a name.
fn find_member(set: &HashSet<String>, name: &str, key: &str) -> (r: bool)
    ensures
        r == evaluation::has_member(outside::texts(set@), name@, key@),
{
    let members = outside::members(set);
    let names_only = is_set_key(key);
    let needle = if names_only {
        names::canonicalize_name(name)
    } else {
        chars::copy(name)
    };
    let ghost all = outside::texts(set@);
    let mut i: usize = 0;
    while i < members.len()
        invariant
            i <= members@.len(),
            all == outside::texts(set@),
            names_only == evaluation::is_set_key(key@),
            needle@ == evaluation::named_for(name@, key@),
            forall|t: Seq<char>| #[trigger]
                all.contains(t) <==> exists|j: int| 0 <= j < members@.len() && members@[j]@ == t,
            forall|j: int|
                0 <= j < i ==> evaluation::named_for(#[trigger] members@[j]@, key@) != needle@,
        decreases members@.len() - i,
    {
        let found = if names_only {
            chars::same_text(&names::canonicalize_name(members[i]), &needle)
        } else {
            chars::same_text(members[i], &needle)
        };
        if found {
            assert(all.contains(members@[i as int]@));
            return true;
        }
        i += 1;
    }
    false
}

/// Compares a text with a set.
fn eval_set_op(lhs: &str, op: MarkerOp, set: &Found<'_>, key: &str) -> (r: Result<
    bool,
    MarkerError,
>)
    requires
        set.value() is Texts,
    ensures
        gives(r, evaluation::compare_set(lhs@, op, set.value()->Texts_0, key@)),
{
    match op {
        MarkerOp::In | MarkerOp::NotIn => {
            let found = match set {
                Found::Members(s) => find_member(s, lhs, key),
                _ => false,
            };
            Ok(found == (op == MarkerOp::In))
        },
        MarkerOp::Version(Operator::Equal) => Ok(false),
        MarkerOp::Version(Operator::NotEqual) => Ok(true),
        MarkerOp::Version(Operator::Below) | MarkerOp::Version(Operator::AtMost)
        | MarkerOp::Version(Operator::AtLeast) | MarkerOp::Version(Operator::Above) => {
            let mut m = chars::copy("'");
            m.push_str(op.as_str());
            m.push_str("' not supported between a string and a set (");
            m.push_str(&outside::quote(lhs));
            m.push_str(")");
            Err(MarkerError::UndefinedComparison(m))
        },
        MarkerOp::Version(Operator::Compatible) | MarkerOp::Version(Operator::Arbitrary) => {
            let mut m = chars::copy("Undefined ");
            m.push_str(&outside::quote(op.as_str()));
            m.push_str(" on ");
            m.push_str(&outside::quote(lhs));
            m.push_str(" and a set.");
            Err(MarkerError::UndefinedComparison(m))
        },
    }
}

/// The name or the text of an operand.
fn operand_str(v: &MarkerVar) -> (r: &str)
    ensures
        r@ == evaluation::operand(v@),
{
    match v {
        MarkerVar::Variable(t) => t.as_str(),
        MarkerVar::Value(t) => t.as_str(),
    }
}

/// A text, normalized as a name where the variable holds a set of names.
fn normalize_operand(t: &str, key: &str) -> (r: String)
    ensures
        r@ == evaluation::named_for(t@, key@),
{
    if is_set_key(key) {
        names::canonicalize_name(t)
    } else {
        chars::copy(t)
    }
}

/// Evaluates a comparison.
fn evaluate_item(lhs: &MarkerVar, op: MarkerOp, rhs: &MarkerVar, env: &Environment<'_>) -> (r:
    Result<bool, MarkerError>)
    ensures
        gives(r, evaluation::eval_item(lhs@, op, rhs@, env.env())),
{
    let on_left = match lhs {
        MarkerVar::Variable(_) => true,
        MarkerVar::Value(_) => false,
    };
    let (key, other) = if on_left {
        (operand_str(lhs), operand_str(rhs))
    } else {
        (operand_str(rhs), operand_str(lhs))
    };
    let found = match env.get(key) {
        Some(f) => f,
        None => return Err(MarkerError::UndefinedEnvironmentName(chars::copy(key))),
    };
    match &found {
        Found::Text(t) => {
            let value = normalize_operand(t, key);
            let other = normalize_operand(other, key);
            if on_left {
                eval_op(&value, op, &other, key)
            } else {
                eval_op(&other, op, &value, key)
            }
        },
        _ => {
            if on_left {
                let mut m = outside::quote(key);
                m.push_str(" is set-valued and can only appear on the right of a comparison");
                return Err(MarkerError::UndefinedComparison(m));
            }
            eval_set_op(other, op, &found, key)
        },
    }
}

/// Evaluates a marker: some group between `or` has to hold, and a group holds where all of its
/// comparisons do.
fn evaluate_markers(l: &Vec<MarkerExpr>, env: &Environment<'_>) -> (r: Result<bool, MarkerError>)
    ensures
        gives(r, evaluation::eval_list(trees(l@), env.env())),
    decreases l,
{
    let ghost all = trees(l@);
    let ghost e = env.env();
    let mut some = false;
    let mut group = true;
    let mut i: usize = 0;
    assert(all.take(0) =~= Seq::empty());
    while i < l.len()
        invariant
            i <= l@.len(),
            all == trees(l@),
            e == env.env(),
            evaluation::eval_parts(all.take(i as int), e) == Ok::<(bool, bool), Failure>(
                (some, group),
            ),
        decreases l@.len() - i,
    {
        proof {
            assert(all.take(i + 1).drop_last() =~= all.take(i as int));
            assert(all.take(i + 1).last() == tree(l@[i as int]));
            if evaluation::eval_parts(all.take(i + 1), e) is Err {
                lemma_first_failure(all, e, i + 1);
            }
        }
        match &l[i] {
            MarkerExpr::Or => {
                some = some || group;
                group = true;
            },
            MarkerExpr::And => {},
            MarkerExpr::Item { lhs, op, rhs } => match evaluate_item(lhs, *op, rhs, env) {
                Ok(b) => {
                    group = group && b;
                },
                Err(f) => return Err(f),
            },
            MarkerExpr::List(inner) => {
                proof {
                    lemma_tree_list(*inner);
                }
                match evaluate_markers(inner, env) {
                    Ok(b) => {
                        group = group && b;
                    },
                    Err(f) => return Err(f),
                }
            },
        }
        i += 1;
    }
    assert(all.take(i as int) =~= all);
    Ok(some || group)
}

/// The first failure of some parts is that of all of them.
proof fn lemma_first_failure(l: Seq<Tree>, env: spec_fn(Seq<char>) -> Option<Value>, n: int)
    requires
        0 <= n <= l.len(),
        evaluation::eval_parts(l.take(n), env) is Err,
    ensures
        evaluation::eval_parts(l, env) == evaluation::eval_parts(l.take(n), env),
    decreases l.len() - n,
{
    if n == l.len() {
        assert(l.take(n) =~= l);
    } else {
        assert(l.take(n + 1).drop_last() =~= l.take(n));
        lemma_first_failure(l, env, n + 1);
    }
}

// --- Markers. ---

/// The error of a text that is not a marker. Holds what is wrong with it, as it is shown.
#[derive(Debug, Clone, PartialEq, Eq)]
pub struct InvalidMarker(pub String);

impl InvalidMarker {
    /// The message of this error.
    pub fn to_string(&self) -> (r: String)
        ensures
            r@ == self.0@,
    {
        chars::copy(&self.0)
    }
}

/// An environment marker, such as `python_version >= "3.8" and os_name == "posix"`.
#[derive(Debug)]
pub struct Marker {
    markers: Vec<MarkerExpr>,
}

impl View for Marker {
    type V = Seq<Tree>;

    closed spec fn view(&self) -> Seq<Tree> {
        trees(self.markers@)
    }
}

impl Marker {
    /// Reads a marker.
    pub fn parse(marker: &str) -> (r: Result<Marker, InvalidMarker>)
        ensures
            match r {
                Ok(m) => marker_grammar::read_full(marker@) matches Ok(l) && m@
                    == marker_grammar::normal_list(l),
                Err(e) => marker_grammar::read_full(marker@) matches Err(f) && e.0@
                    == tokenizer::error_text(f, marker@),
            },
    {
        let mut tok = Tokenizer::new(marker);
        match parse_full_marker(&mut tok) {
            Ok(l) => Ok(Marker::from_tree(l)),
            Err(e) => Err(InvalidMarker(e.to_string())),
        }
    }

    /// A marker with the given parts, in normal form.
    pub fn from_tree(l: Vec<MarkerExpr>) -> (r: Marker)
        ensures
            r@ == marker_grammar::normal_list(trees(l@)),
    {
        Marker { markers: normalize_extra_values(&l) }
    }

    /// Evaluates the marker for an environment of texts. A variable that is not given is an
    /// error.
    pub fn evaluate(&self, environment: &HashMap<String, String>) -> (r: Result<bool, MarkerError>)
        ensures
            match r {
                Ok(b) => evaluation::eval_list(self@, text_env(environment@)) == Ok::<
                    bool,
                    Failure,
                >(b),
                Err(e) => evaluation::eval_list(self@, text_env(environment@)) == Err::<
                    bool,
                    Failure,
                >(e.failure()),
            },
    {
        evaluate_markers(&self.markers, &Environment::Texts(environment))
    }

    /// Evaluates the marker for an environment with texts and sets of texts, in a context that
    /// adds variables that are not given.
    pub fn evaluate_with_context(
        &self,
        environment: &HashMap<String, EnvValue>,
        context: EvaluateContext,
    ) -> (r: Result<bool, MarkerError>)
        ensures
            match r {
                Ok(b) => evaluation::eval_list(self@, value_env(environment@, context)) == Ok::<
                    bool,
                    Failure,
                >(b),
                Err(e) => evaluation::eval_list(self@, value_env(environment@, context)) == Err::<
                    bool,
                    Failure,
                >(e.failure()),
            },
    {
        evaluate_markers(&self.markers, &Environment::Values(environment, context))
    }

    /// The canonical text of the marker.
    pub fn to_string(&self) -> (r: String)
        ensures
            r@ == marker_grammar::list_text(self@, true),
    {
        let mut out = String::new();
        format_list(&mut out, &self.markers, true);
        assert(out@ =~= marker_grammar::list_text(self@, true));
        out
    }
}

impl Clone for Marker {
    fn clone(&self) -> (r: Marker)
        ensures
            r@ == self@,
    {
        Marker { markers: copy_exprs(&self.markers) }
    }
}

impl FromStr for Marker {
    type Err = InvalidMarker;

    fn from_str(s: &str) -> (r: Result<Marker, InvalidMarker>)
        ensures
            match r {
                Ok(m) => marker_grammar::read_full(s@) matches Ok(l) && m@
                    == marker_grammar::normal_list(l),
                Err(e) => marker_grammar::read_full(s@) matches Err(f) && e.0@
                    == tokenizer::error_text(f, s@),
            },
    {
        Marker::parse(s)
    }
}

impl PartialEq for Marker {
    fn eq(&self, other: &Marker) -> (r: bool) {
        chars::same_text(&self.to_string(), &other.to_string())
    }
}

impl vstd::std_specs::cmp::PartialEqSpecImpl for Marker {
    open spec fn obeys_eq_spec() -> bool {
        true
    }

    open spec fn eq_spec(&self, other: &Marker) -> bool {
        marker_grammar::list_text(self@, true) == marker_grammar::list_text(other@, true)
    }
}

impl Eq for Marker {

}

impl Hash for Marker {
    fn hash<H: Hasher>(&self, state: &mut H) {
        self.to_string().hash(state);
    }
}

} // verus!
