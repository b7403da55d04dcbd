//! The grammar of environment markers: what a source says, or what is wrong with it and where.

use vstd::prelude::*;

use crate::clause::{self, Operator};
use crate::names;
use crate::outside;
use crate::text::{self, Class};
use crate::tokenizer::{self, Rule, SyntaxError};

verus! {

/// The operator of a comparison in a marker.
#[derive(Debug, Clone, Copy, PartialEq, Eq, Structural)]
pub enum MarkerOp {
    /// `in`.
    In,
    /// `not in`.
    NotIn,
    /// An operator of version specifiers.
    Version(Operator),
}

impl MarkerOp {
    /// How the operator is written.
    pub open spec fn spelling(self) -> Seq<char> {
        match self {
            MarkerOp::In => "in"@,
            MarkerOp::NotIn => "not in"@,
            MarkerOp::Version(op) => op.spelling(),
        }
    }

    /// How the operator is written.
    pub fn as_str(self) -> (r: &'static str)
        ensures
            r@ == self.spelling(),
    {
        match self {
            MarkerOp::In => "in",
            MarkerOp::NotIn => "not in",
            MarkerOp::Version(op) => op.as_str(),
        }
    }
}

/// An operand of a comparison: an environment variable or a text.
#[verifier::ext_equal]
pub enum Operand {
    Variable(Seq<char>),
    Value(Seq<char>),
}

/// A part of a marker: a comparison, a marker in parentheses, or a word between two of these.
#[verifier::ext_equal]
pub enum Tree {
    Item { lhs: Operand, op: MarkerOp, rhs: Operand },
    List(Seq<Tree>),
    And,
    Or,
}

// --- Quoted texts. ---

/// A digit in base eight or sixteen.
pub open spec fn is_digit_of(base: nat, c: char) -> bool {
    if base == 8 {
        '0' <= c <= '7'
    } else {
        text::is_digit(c) || 'a' <= text::lower(c) <= 'f'
    }
}

/// The number that a digit stands for.
pub open spec fn digit_of(c: char) -> nat {
    if text::is_digit(c) {
        text::digit_value(c)
    } else {
        (text::lower(c) as int - 'a' as int + 10) as nat
    }
}

/// The number that a row of digits stands for.
pub open spec fn number_of(base: nat, s: Seq<char>) -> nat
    decreases s.len(),
{
    if s.len() == 0 {
        0
    } else {
        number_of(base, s.drop_last()) * base + digit_of(s.last())
    }
}

/// How many digits a text begins with, up to some number of them.
pub open spec fn digits_len(base: nat, s: Seq<char>, most: nat) -> nat
    decreases most,
{
    if most > 0 && s.len() > 0 && is_digit_of(base, s[0]) {
        1 + digits_len(base, s.skip(1), (most - 1) as nat)
    } else {
        0
    }
}

/// The character with a number, if there is one.
pub open spec fn char_of(n: nat) -> Option<char> {
    if n <= u32::MAX && outside::is_scalar(n as u32) {
        Some(n as char)
    } else {
        None
    }
}

/// What a number in an escape stands for: the character, and the length of the escape.
pub open spec fn numbered(base: nat, s: Seq<char>, from: nat, n: nat) -> Option<(Seq<char>, nat)> {
    match char_of(number_of(base, text::head(text::after(s, from), n))) {
        Some(c) => Some((seq![c], from + n)),
        None => None,
    }
}

/// What an escape with a number of exactly `n` digits stands for.
pub open spec fn hex_escape(s: Seq<char>, n: nat) -> Option<(Seq<char>, nat)> {
    if digits_len(16, text::after(s, 2), n) == n {
        numbered(16, s, 2, n)
    } else {
        None
    }
}

/// What the escape at the head of a text stands for, and how long it is. The text begins with
/// a backslash.
pub open spec fn escape(s: Seq<char>) -> Option<(Seq<char>, nat)> {
    if s.len() < 2 {
        None
    } else {
        let c = s[1];
        if c == '\\' || c == '\'' || c == '"' {
            Some((seq![c], 2))
        } else if c == '\n' {
            Some((seq![], 2))
        } else if c == 'a' {
            Some((seq!['\u{7}'], 2))
        } else if c == 'b' {
            Some((seq!['\u{8}'], 2))
        } else if c == 'f' {
            Some((seq!['\u{c}'], 2))
        } else if c == 'n' {
            Some((seq!['\n'], 2))
        } else if c == 'r' {
            Some((seq!['\r'], 2))
        } else if c == 't' {
            Some((seq!['\t'], 2))
        } else if c == 'v' {
            Some((seq!['\u{b}'], 2))
        } else if '0' <= c <= '7' {
            numbered(8, s, 1, digits_len(8, text::after(s, 1), 3))
        } else if c == 'x' {
            hex_escape(s, 2)
        } else if c == 'u' {
            hex_escape(s, 4)
        } else if c == 'U' {
            hex_escape(s, 8)
        } else if c == 'N' {
            None
        } else {
            Some((seq!['\\', c], 2))
        }
    }
}

/// A text put before another, if there is one.
pub open spec fn prefixed(a: Seq<char>, b: Option<Seq<char>>) -> Option<Seq<char>> {
    match b {
        Some(t) => Some(a + t),
        None => None,
    }
}

/// A text with its escapes replaced by what they stand for. Nothing where an escape stands for
/// nothing.
pub open spec fn unescape(s: Seq<char>) -> Option<Seq<char>>
    decreases s.len(),
{
    if s.len() == 0 {
        Some(Seq::empty())
    } else if s[0] != '\\' {
        prefixed(seq![s[0]], unescape(s.skip(1)))
    } else {
        match escape(s) {
            Some((t, n)) => if 0 < n <= s.len() {
                prefixed(t, unescape(text::after(s, n)))
            } else {
                None
            },
            None => None,
        }
    }
}

/// What stands between the quotes.
pub open spec fn inside(s: Seq<char>) -> Seq<char> {
    s.subrange(1, s.len() - 1)
}

// --- The grammar. ---

/// The place behind spaces and tabs.
pub open spec fn blank(s: Seq<char>, i: nat) -> nat {
    i + text::run(Class::Blank, text::after(s, i))
}

/// How much of a source at a place is a token of a kind.
pub open spec fn token(s: Seq<char>, i: nat, rule: Rule) -> Option<nat> {
    tokenizer::rule_len(rule, text::after(s, i))
}

/// An error at one place.
pub open spec fn error_at(s: Seq<char>, i: nat, message: Seq<char>) -> SyntaxError {
    error_between(s, i, i, message)
}

/// An error between two places.
pub open spec fn error_between(s: Seq<char>, i: nat, j: nat, message: Seq<char>) -> SyntaxError {
    SyntaxError { message, start: text::byte_at(s, i), end: text::byte_at(s, j) }
}

/// A name with underscores for dots.
pub open spec fn undotted(s: Seq<char>) -> Seq<char> {
    s.map_values(
        |c: char|
            if c == '.' {
                '_'
            } else {
                c
            },
    )
}

/// The environment variable that a name stands for.
pub open spec fn variable(s: Seq<char>) -> Seq<char> {
    if undotted(s) == "python_implementation"@ {
        "platform_python_implementation"@
    } else {
        undotted(s)
    }
}

/// An operand and the place behind it.
#[verifier::opaque]
pub open spec fn read_var(s: Seq<char>, i: nat) -> Result<(Operand, nat), SyntaxError> {
    match token(s, i, Rule::Variable) {
        Some(n) => Ok((Operand::Variable(variable(text::head(text::after(s, i), n))), i + n)),
        None => match token(s, i, Rule::QuotedString) {
            Some(n) => match unescape(inside(text::head(text::after(s, i), n))) {
                Some(t) => Ok((Operand::Value(t), i + n)),
                None => Err(error_between(s, i, i + n, "Invalid quoted string"@)),
            },
            None => Err(error_at(s, i, "Expected a marker variable or quoted string"@)),
        },
    }
}

/// An operator and the place behind it.
#[verifier::opaque]
pub open spec fn read_op(s: Seq<char>, i: nat) -> Result<(MarkerOp, nat), SyntaxError> {
    match token(s, i, Rule::In) {
        Some(n) => Ok((MarkerOp::In, i + n)),
        None => match token(s, i, Rule::Not) {
            Some(n) => match token(s, i + n, Rule::Ws) {
                Some(w) => match token(s, i + n + w, Rule::In) {
                    Some(m) => Ok((MarkerOp::NotIn, i + n + w + m)),
                    None => Err(error_at(s, i + n + w, "Expected 'in' after 'not'"@)),
                },
                None => Err(error_at(s, i + n, "Expected whitespace after 'not'"@)),
            },
            None => match clause::operator_at(text::after(s, i)) {
                Some(op) => Ok((MarkerOp::Version(op), i + op.spelling().len())),
                None => Err(
                    error_at(
                        s,
                        i,
                        "Expected marker operator, one of <=, <, !=, ==, >=, >, ~=, ===, in, not in"@,
                    ),
                ),
            },
        },
    }
}

/// A comparison and the place behind it.
#[verifier::opaque]
pub open spec fn read_item(s: Seq<char>, i: nat) -> Result<(Tree, nat), SyntaxError> {
    match read_var(s, blank(s, i)) {
        Err(e) => Err(e),
        Ok((lhs, j)) => match read_op(s, blank(s, j)) {
            Err(e) => Err(e),
            Ok((op, k)) => match read_var(s, blank(s, k)) {
                Err(e) => Err(e),
                Ok((rhs, m)) => Ok((Tree::Item { lhs, op, rhs }, blank(s, m))),
            },
        },
    }
}

/// How much of a source is left at a place.
pub open spec fn left(s: Seq<char>, i: nat) -> nat {
    if i <= s.len() {
        (s.len() - i) as nat
    } else {
        0
    }
}

/// The error of a place that cannot be reached.
pub open spec fn out_of_reach() -> SyntaxError {
    SyntaxError { message: Seq::empty(), start: 0, end: 0 }
}

/// A comparison or a marker in parentheses, and the place behind it.
pub open spec fn read_atom(s: Seq<char>, i: nat) -> Result<(Tree, nat), SyntaxError>
    decreases left(s, i), 0nat,
{
    let j = blank(s, i);
    if i > s.len() {
        Err(out_of_reach())
    } else if token(s, j, Rule::LeftParenthesis) is Some {
        proof {
            text::lemma_run_len(Class::Blank, text::after(s, i));
        }
        match read_marker(s, blank(s, j + 1)) {
            Err(e) => Err(e),
            Ok((l, k)) => {
                let m = blank(s, k);
                if token(s, m, Rule::RightParenthesis) is Some {
                    Ok((Tree::List(l), blank(s, m + 1)))
                } else {
                    Err(
                        error_between(
                            s,
                            j,
                            m,
                            "Expected matching RIGHT_PARENTHESIS for LEFT_PARENTHESIS, after marker expression"@,
                        ),
                    )
                }
            },
        }
    } else {
        match read_item(s, j) {
            Err(e) => Err(e),
            Ok((t, k)) => Ok((t, blank(s, k))),
        }
    }
}

/// A marker and the place behind it: comparisons and markers in parentheses with `and` or `or`
/// between them.
pub open spec fn read_marker(s: Seq<char>, i: nat) -> Result<(Seq<Tree>, nat), SyntaxError>
    decreases left(s, i), 2nat,
{
    match read_atom(s, i) {
        Err(e) => Err(e),
        Ok((t, j)) => if i <= j {
            read_more(s, j, seq![t])
        } else {
            Err(out_of_reach())
        },
    }
}

/// The rest of a marker.
pub open spec fn read_more(s: Seq<char>, i: nat, l: Seq<Tree>) -> Result<
    (Seq<Tree>, nat),
    SyntaxError,
>
    decreases left(s, i), 1nat,
{
    match token(s, i, Rule::BoolOp) {
        None => Ok((l, i)),
        Some(n) => {
            let joiner = if text::head(text::after(s, i), n) == "or"@ {
                Tree::Or
            } else {
                Tree::And
            };
            if !(i < s.len() && 0 < n) {
                Err(out_of_reach())
            } else {
                match read_atom(s, i + n) {
                    Err(e) => Err(e),
                    Ok((t, j)) => if i + n <= j {
                        read_more(s, j, l.push(joiner).push(t))
                    } else {
                        Err(out_of_reach())
                    },
                }
            }
        },
    }
}

/// A marker that is all of a source.
pub open spec fn read_full(s: Seq<char>) -> Result<Seq<Tree>, SyntaxError> {
    match read_marker(s, 0) {
        Err(e) => Err(e),
        Ok((l, j)) => if token(s, j, Rule::End) is Some {
            Ok(l)
        } else {
            Err(error_at(s, j, "Expected end of marker expression"@))
        },
    }
}

// --- Normal form. ---

/// Whether an operand is the variable for extras.
pub open spec fn is_extra(v: Operand) -> bool {
    v == Operand::Variable("extra"@)
}

/// An operand with the name in it normalized where it is a text.
pub open spec fn named(v: Operand) -> Operand {
    match v {
        Operand::Value(t) => Operand::Value(names::canonical_name(t)),
        _ => v,
    }
}

/// A part of a marker with texts that are compared with `extra` normalized as names.
pub open spec fn normal(t: Tree) -> Tree
    decreases t,
{
    match t {
        Tree::Item { lhs, op, rhs } => if is_extra(lhs) && rhs is Value {
            Tree::Item { lhs, op, rhs: named(rhs) }
        } else if lhs is Value && is_extra(rhs) {
            Tree::Item { lhs: named(lhs), op, rhs }
        } else {
            t
        },
        Tree::List(l) => Tree::List(normal_list(l)),
        _ => t,
    }
}

/// The parts of a marker, each in normal form.
pub open spec fn normal_list(l: Seq<Tree>) -> Seq<Tree>
    decreases l,
{
    if l.len() == 0 {
        l
    } else {
        normal_list(l.drop_last()).push(normal(l.last()))
    }
}

// --- Text. ---

/// The text of an operand.
pub open spec fn operand_text(v: Operand) -> Seq<char> {
    match v {
        Operand::Variable(t) => t,
        Operand::Value(t) => seq!['"'].add(t).push('"'),
    }
}

/// The text of a comparison.
pub open spec fn item_text(lhs: Operand, op: MarkerOp, rhs: Operand) -> Seq<char> {
    operand_text(lhs) + " "@ + op.spelling() + " "@ + operand_text(rhs)
}

/// The text of a part of a marker. A marker in parentheses keeps them unless it is `first`.
pub open spec fn tree_text(t: Tree, first: bool) -> Seq<char>
    decreases t, 0nat,
{
    match t {
        Tree::Item { lhs, op, rhs } => item_text(lhs, op, rhs),
        Tree::List(l) => list_text(l, first),
        Tree::And => "and"@,
        Tree::Or => "or"@,
    }
}

/// The text of a marker. Parentheses around a single part are left out; those around several
/// parts stay, unless nothing stands beside them.
pub open spec fn list_text(l: Seq<Tree>, first: bool) -> Seq<char>
    decreases l, 2nat,
{
    if l.len() == 1 && (l[0] is List || l[0] is Item) {
        tree_text(l[0], first)
    } else if first {
        text::join(texts(l), " "@)
    } else {
        "("@ + text::join(texts(l), " "@) + ")"@
    }
}

/// The texts of the parts of a marker.
pub open spec fn texts(l: Seq<Tree>) -> Seq<Seq<char>>
    decreases l, 1nat,
{
    if l.len() == 0 {
        Seq::empty()
    } else {
        texts(l.drop_last()).push(tree_text(l.last(), false))
    }
}

} // verus!
