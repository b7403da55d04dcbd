//! The grammar of requirements: what a source says, or what is wrong with it and where.

use vstd::prelude::*;

use crate::marker_grammar::{self, Tree};
use crate::text;
use crate::tokenizer::{Rule, SyntaxError};

verus! {

/// The parts of a requirement.
#[verifier::ext_equal]
pub struct Parts {
    /// The name of the project.
    pub name: Seq<char>,
    /// The names of the extras, as they were written.
    pub extras: Seq<Seq<char>>,
    /// What follows the extras.
    pub details: Details,
}

/// What follows the extras of a requirement.
#[verifier::ext_equal]
pub struct Details {
    /// The address after `@`; empty where there is none.
    pub url: Seq<char>,
    /// The version specifiers, with commas between them.
    pub specifier: Seq<char>,
    /// The marker after `;`.
    pub marker: Option<Seq<Tree>>,
}

/// The text of a token.
pub open spec fn token_text(s: Seq<char>, i: nat, n: nat) -> Seq<char> {
    text::head(text::after(s, i), n)
}

/// The rest of a list of extras, and the place behind it.
#[verifier::opaque]
pub open spec fn read_more_extras(s: Seq<char>, i: nat, l: Seq<Seq<char>>) -> Result<
    (Seq<Seq<char>>, nat),
    SyntaxError,
>
    decreases marker_grammar::left(s, i),
{
    let j = marker_grammar::blank(s, i);
    let k = marker_grammar::blank(s, j + 1);
    if marker_grammar::token(s, j, Rule::Identifier) is Some {
        Err(marker_grammar::error_at(s, j, "Expected comma between extra names"@))
    } else if marker_grammar::token(s, j, Rule::Comma) is None {
        Ok((l, j))
    } else {
        match marker_grammar::token(s, k, Rule::Identifier) {
            None => Err(marker_grammar::error_at(s, k, "Expected extra name after comma"@)),
            Some(n) => if i < s.len() {
                read_more_extras(s, k + n, l.push(token_text(s, k, n)))
            } else {
                Err(marker_grammar::out_of_reach())
            },
        }
    }
}

/// A list of extras, which may be empty, and the place behind it.
#[verifier::opaque]
pub open spec fn read_extras_list(s: Seq<char>, i: nat) -> Result<
    (Seq<Seq<char>>, nat),
    SyntaxError,
> {
    match marker_grammar::token(s, i, Rule::Identifier) {
        None => Ok((Seq::empty(), i)),
        Some(n) => read_more_extras(s, i + n, seq![token_text(s, i, n)]),
    }
}

/// Extras in brackets, if there are any, and the place behind them.
#[verifier::opaque]
pub open spec fn read_extras(s: Seq<char>, i: nat) -> Result<(Seq<Seq<char>>, nat), SyntaxError> {
    if marker_grammar::token(s, i, Rule::LeftBracket) is None {
        Ok((Seq::empty(), i))
    } else {
        match read_extras_list(s, marker_grammar::blank(s, i + 1)) {
            Err(e) => Err(e),
            Ok((l, j)) => {
                let k = marker_grammar::blank(s, j);
                if marker_grammar::token(s, k, Rule::RightBracket) is Some {
                    Ok((l, k + 1))
                } else {
                    Err(
                        marker_grammar::error_between(
                            s,
                            i,
                            k,
                            "Expected matching RIGHT_BRACKET for LEFT_BRACKET, after extras"@,
                        ),
                    )
                }
            },
        }
    }
}

/// Version specifiers with commas between them, and the place behind them. There may be none at
/// all, but one has to follow each comma.
#[verifier::opaque]
pub open spec fn read_many(s: Seq<char>, i: nat, t: Seq<char>) -> Result<
    (Seq<char>, nat),
    SyntaxError,
>
    decreases marker_grammar::left(s, i),
{
    match marker_grammar::token(s, i, Rule::Specifier) {
        None => Ok((t, i)),
        Some(n) => {
            let p = i + n;
            let q = marker_grammar::blank(s, p);
            let u = t + token_text(s, i, n);
            if marker_grammar::token(s, p, Rule::VersionPrefixTrail) is Some {
                Err(
                    SyntaxError {
                        message: ".* suffix can only be used with `==` or `!=` operators"@,
                        start: text::byte_at(s, i),
                        end: text::byte_at(s, p) + 1,
                    },
                )
            } else if marker_grammar::token(s, p, Rule::VersionLocalLabelTrail) is Some {
                Err(
                    marker_grammar::error_between(
                        s,
                        i,
                        p,
                        "Local version label can only be used with `==` or `!=` operators"@,
                    ),
                )
            } else if marker_grammar::token(s, q, Rule::Comma) is None {
                Ok((u, q))
            } else if marker_grammar::token(
                s,
                marker_grammar::blank(s, q + 1),
                Rule::Specifier,
            ) is None {
                Err(
                    marker_grammar::error_at(
                        s,
                        marker_grammar::blank(s, q + 1),
                        "Expected version specifier after comma"@,
                    ),
                )
            } else if i < s.len() {
                read_many(s, marker_grammar::blank(s, q + 1), u + ","@)
            } else {
                Err(marker_grammar::out_of_reach())
            }
        },
    }
}

/// Version specifiers, which may be in parentheses, and the place behind them.
#[verifier::opaque]
pub open spec fn read_specifier(s: Seq<char>, i: nat) -> Result<(Seq<char>, nat), SyntaxError> {
    let open = marker_grammar::token(s, i, Rule::LeftParenthesis) is Some;
    let j = if open {
        i + 1
    } else {
        i
    };
    match read_many(s, marker_grammar::blank(s, j), Seq::empty()) {
        Err(e) => Err(e),
        Ok((t, k)) => {
            let m = marker_grammar::blank(s, k);
            if !open {
                Ok((t, m))
            } else if marker_grammar::token(s, m, Rule::RightParenthesis) is Some {
                Ok((t, m + 1))
            } else {
                Err(
                    marker_grammar::error_between(
                        s,
                        i,
                        m,
                        "Expected matching RIGHT_PARENTHESIS for LEFT_PARENTHESIS, after version specifier"@,
                    ),
                )
            }
        },
    }
}

/// A marker after a semicolon, and the place behind it. `from` is where an error begins.
#[verifier::opaque]
pub open spec fn read_tail(s: Seq<char>, i: nat, from: nat, expected: Seq<char>) -> Result<
    (Seq<Tree>, nat),
    SyntaxError,
> {
    if marker_grammar::token(s, i, Rule::Semicolon) is None {
        Err(marker_grammar::error_between(s, from, i, "Expected "@ + expected + " or end"@))
    } else {
        match marker_grammar::read_marker(s, i + 1) {
            Err(e) => Err(e),
            Ok((l, j)) => Ok((l, marker_grammar::blank(s, j))),
        }
    }
}

/// An address and a marker, behind an `@`, and the place behind them.
#[verifier::opaque]
pub open spec fn read_url(s: Seq<char>, i: nat) -> Result<(Details, nat), SyntaxError> {
    match marker_grammar::token(s, i, Rule::Url) {
        None => Err(marker_grammar::error_at(s, i, "Expected URL after @"@)),
        Some(n) => {
            let url = token_text(s, i, n);
            let alone = Details { url, specifier: Seq::empty(), marker: None };
            let j = i + n;
            if marker_grammar::token(s, j, Rule::End) is Some {
                Ok((alone, j))
            } else {
                match marker_grammar::token(s, j, Rule::Ws) {
                    None => Err(marker_grammar::error_at(s, j, "Expected whitespace after URL"@)),
                    Some(w) => if marker_grammar::token(s, j + w, Rule::End) is Some {
                        Ok((alone, j + w))
                    } else {
                        match read_tail(s, j + w, i, "semicolon (after URL and whitespace)"@) {
                            Err(e) => Err(e),
                            Ok((l, k)) => Ok((Details { marker: Some(l), ..alone }, k)),
                        }
                    },
                }
            }
        },
    }
}

/// What was expected behind version specifiers.
pub open spec fn expected_after(specifier: Seq<char>) -> Seq<char> {
    if specifier.len() == 0 {
        "semicolon (after name with no version specifier)"@
    } else {
        "comma (within version specifier), semicolon (after version specifier)"@
    }
}

/// What follows the extras, and the place behind it: an address, or version specifiers, and a
/// marker.
#[verifier::opaque]
pub open spec fn read_details(s: Seq<char>, i: nat) -> Result<(Details, nat), SyntaxError> {
    if marker_grammar::token(s, i, Rule::At) is Some {
        read_url(s, marker_grammar::blank(s, i + 1))
    } else {
        match read_specifier(s, i) {
            Err(e) => Err(e),
            Ok((specifier, j)) => {
                let k = marker_grammar::blank(s, j);
                let alone = Details { url: Seq::empty(), specifier, marker: None };
                if marker_grammar::token(s, k, Rule::End) is Some {
                    Ok((alone, k))
                } else {
                    match read_tail(s, k, i, expected_after(specifier)) {
                        Err(e) => Err(e),
                        Ok((l, m)) => Ok((Details { marker: Some(l), ..alone }, m)),
                    }
                }
            },
        }
    }
}

/// What follows the name of a requirement, up to the end of a source.
#[verifier::opaque]
pub open spec fn read_body(s: Seq<char>, i: nat) -> Result<(Seq<Seq<char>>, Details), SyntaxError> {
    match read_extras(s, marker_grammar::blank(s, i)) {
        Err(e) => Err(e),
        Ok((extras, j)) => match read_details(s, marker_grammar::blank(s, j)) {
            Err(e) => Err(e),
            Ok((details, k)) => if marker_grammar::token(s, k, Rule::End) is Some {
                Ok((extras, details))
            } else {
                Err(marker_grammar::error_at(s, k, "Expected end of dependency specifier"@))
            },
        },
    }
}

/// A requirement that is all of a source.
pub open spec fn read_requirement(s: Seq<char>) -> Result<Parts, SyntaxError> {
    let i = marker_grammar::blank(s, 0);
    match marker_grammar::token(s, i, Rule::Identifier) {
        None => Err(
            marker_grammar::error_at(
                s,
                i,
                "Expected package name at the start of dependency specifier"@,
            ),
        ),
        Some(n) => match read_body(s, i + n) {
            Err(e) => Err(e),
            Ok((extras, details)) => Ok(Parts { name: token_text(s, i, n), extras, details }),
        },
    }
}

} // verus!
