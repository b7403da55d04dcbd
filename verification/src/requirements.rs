//! Requirements: the name of a project, extras, version specifiers or an address, and a marker.

use std::hash::{Hash, Hasher};
use std::str::FromStr;

use vstd::prelude::*;

use crate::chars;
use crate::marker_grammar::{self, Tree};
use crate::markers::{self, Marker, MarkerExpr};
use crate::names;
use crate::requirement_grammar::{self, Details};
use crate::specifier_set::{self, SpecifierSet, SpecifierSetSpec};
use crate::specifiers::SpecifierSpec;
use crate::text;
use crate::text_set;
use crate::tokenizer::{self, ParserSyntaxError, Rule, SyntaxError, Tokenizer};

verus! {

// --- Parsing. ---

/// What follows the extras of a requirement.
struct ParsedDetails {
    url: String,
    specifier: String,
    marker: Option<Vec<MarkerExpr>>,
}

impl ParsedDetails {
    spec fn details(self) -> Details {
        Details {
            url: self.url@,
            specifier: self.specifier@,
            marker: match self.marker {
                Some(l) => Some(markers::trees(l@)),
                None => None,
            },
        }
    }
}

/// The parts of a requirement.
struct ParsedRequirement {
    name: String,
    extras: Vec<String>,
    details: ParsedDetails,
}

/// A tokenizer that a parser can start from.
spec fn ready(tok: Tokenizer) -> bool {
    &&& tok.wf()
    &&& tok@.next is None
    &&& tok@.index <= tok@.source.len()
}

/// Reads a list of extras.
fn parse_extras_list(tok: &mut Tokenizer) -> (r: Result<Vec<String>, ParserSyntaxError>)
    requires
        ready(*old(tok)),
    ensures
        ({
            let found = requirement_grammar::read_extras_list(old(tok)@.source, old(tok)@.index);
            match r {
                Ok(l) => found matches Ok((t, i)) && t == text_set::texts(l@) && tokenizer::reached(
                    *old(tok),
                    *final(tok),
                    i,
                ),
                Err(e) => found matches Err(f) && f == e.error() && e.source@ == old(tok)@.source,
            }
        }),
{
    proof {
        reveal(requirement_grammar::read_extras_list);
        reveal(requirement_grammar::read_more_extras);
    }
    let ghost s = tok@.source;
    let ghost start = tok@.index;
    let mut extras: Vec<String> = Vec::new();
    if !tok.check(Rule::Identifier) {
        assert(text_set::texts(extras@) =~= Seq::empty());
        return Ok(extras);
    }
    let first = tok.read().text;
    let ghost t = first@;
    extras.push(first);
    assert(text_set::texts(extras@) =~= seq![t]);
    loop
        invariant
            ready(*tok),
            tok@.source == s,
            s == old(tok)@.source,
            start == old(tok)@.index,
            start <= tok@.index,
            requirement_grammar::read_extras_list(s, start)
                == requirement_grammar::read_more_extras(s, tok@.index, text_set::texts(extras@)),
        decreases s.len() - tok@.index,
    {
        proof {
            reveal(requirement_grammar::read_more_extras);
        }
        markers::skip_blank(tok);
        if tok.peek(Rule::Identifier) {
            return Err(tok.syntax_error("Expected comma between extra names", None, None));
        }
        if !tok.check(Rule::Comma) {
            return Ok(extras);
        }
        tok.read();
        markers::skip_blank(tok);
        proof {
            assert("Expected "@ + "extra name after comma"@ =~= "Expected extra name after comma"@)
                by {
                reveal_strlit("Expected ");
                reveal_strlit("extra name after comma");
                reveal_strlit("Expected extra name after comma");
            }
        }
        match tok.expect(Rule::Identifier, "extra name after comma") {
            Ok(token) => {
                let ghost before = text_set::texts(extras@);
                let text = token.text;
                let ghost t = text@;
                extras.push(text);
                assert(text_set::texts(extras@) =~= before.push(t));
            },
            Err(e) => return Err(e),
        }
    }
}

/// Reads extras in brackets, if there are any.
fn parse_extras(tok: &mut Tokenizer) -> (r: Result<Vec<String>, ParserSyntaxError>)
    requires
        ready(*old(tok)),
    ensures
        ({
            let found = requirement_grammar::read_extras(old(tok)@.source, old(tok)@.index);
            match r {
                Ok(l) => found matches Ok((t, i)) && t == text_set::texts(l@) && tokenizer::reached(
                    *old(tok),
                    *final(tok),
                    i,
                ),
                Err(e) => found matches Err(f) && f == e.error() && e.source@ == old(tok)@.source,
            }
        }),
{
    proof {
        reveal(requirement_grammar::read_extras);
    }
    let open: usize = tok.position();
    if !tok.check(Rule::LeftBracket) {
        let none: Vec<String> = Vec::new();
        assert(text_set::texts(none@) =~= Seq::empty());
        return Ok(none);
    }
    tok.read();
    markers::skip_blank(tok);
    let extras = match parse_extras_list(tok) {
        Ok(l) => l,
        Err(e) => return Err(e),
    };
    markers::skip_blank(tok);
    if !tok.check(Rule::RightBracket) {
        return Err(
            tok.syntax_error(
                "Expected matching RIGHT_BRACKET for LEFT_BRACKET, after extras",
                Some(open),
                None,
            ),
        );
    }
    tok.read();
    Ok(extras)
}

/// Reads version specifiers with commas between them.
fn parse_version_many(tok: &mut Tokenizer) -> (r: Result<String, ParserSyntaxError>)
    requires
        ready(*old(tok)),
    ensures
        ({
            let found = requirement_grammar::read_many(
                old(tok)@.source,
                old(tok)@.index,
                Seq::empty(),
            );
            match r {
                Ok(l) => found matches Ok((t, i)) && t == l@ && tokenizer::reached(
                    *old(tok),
                    *final(tok),
                    i,
                ),
                Err(e) => found matches Err(f) && f == e.error() && e.source@ == old(tok)@.source,
            }
        }),
{
    let ghost s = tok@.source;
    let ghost start = tok@.index;
    let mut parsed = String::new();
    assert(parsed@ =~= Seq::empty());
    proof {
        reveal(requirement_grammar::read_many);
    }
    while tok.check(Rule::Specifier)
        invariant
            ready(*tok),
            tok@.source == s,
            s == old(tok)@.source,
            start == old(tok)@.index,
            start <= tok@.index,
            requirement_grammar::read_many(s, start, Seq::empty())
                == requirement_grammar::read_many(s, tok@.index, parsed@),
        decreases s.len() - tok@.index,
    {
        proof {
            reveal(requirement_grammar::read_many);
        }
        let begin: usize = tok.position();
        let token = tok.read();
        parsed.push_str(&token.text);
        if tok.peek(Rule::VersionPrefixTrail) {
            let end: usize = tok.position();
            proof {
                reveal_strlit(".*");
                tok.lemma_room(2);
            }
            return Err(
                tok.syntax_error(
                    ".* suffix can only be used with `==` or `!=` operators",
                    Some(begin),
                    Some(end + 1),
                ),
            );
        }
        if tok.peek(Rule::VersionLocalLabelTrail) {
            return Err(
                tok.syntax_error(
                    "Local version label can only be used with `==` or `!=` operators",
                    Some(begin),
                    None,
                ),
            );
        }
        markers::skip_blank(tok);
        if !tok.check(Rule::Comma) {
            return Ok(parsed);
        }
        let comma = tok.read();
        proof {
            reveal_strlit(",");
            assert(comma.text@ =~= ","@);
        }
        parsed.push_str(&comma.text);
        markers::skip_blank(tok);
        if !tok.peek(Rule::Specifier) {
            return Err(tok.syntax_error("Expected version specifier after comma", None, None));
        }
    }
    Ok(parsed)
}

/// Reads version specifiers, which may be in parentheses.
fn parse_specifier(tok: &mut Tokenizer) -> (r: Result<String, ParserSyntaxError>)
    requires
        ready(*old(tok)),
    ensures
        ({
            let found = requirement_grammar::read_specifier(old(tok)@.source, old(tok)@.index);
            match r {
                Ok(l) => found matches Ok((t, i)) && t == l@ && tokenizer::reached(
                    *old(tok),
                    *final(tok),
                    i,
                ),
                Err(e) => found matches Err(f) && f == e.error() && e.source@ == old(tok)@.source,
            }
        }),
{
    proof {
        reveal(requirement_grammar::read_specifier);
    }
    let begin: usize = tok.position();
    let open = tok.check(Rule::LeftParenthesis);
    if open {
        tok.read();
    }
    markers::skip_blank(tok);
    let parsed = match parse_version_many(tok) {
        Ok(t) => t,
        Err(e) => return Err(e),
    };
    markers::skip_blank(tok);
    if open {
        if !tok.check(Rule::RightParenthesis) {
            return Err(
                tok.syntax_error(
                    "Expected matching RIGHT_PARENTHESIS for LEFT_PARENTHESIS, after version specifier",
                    Some(begin),
                    None,
                ),
            );
        }
        tok.read();
    }
    Ok(parsed)
}

/// Reads a marker after a semicolon.
fn parse_requirement_marker(tok: &mut Tokenizer, from: usize, expected: &str) -> (r: Result<
    Vec<MarkerExpr>,
    ParserSyntaxError,
>)
    requires
        ready(*old(tok)),
    ensures
        ({
            let s = old(tok)@.source;
            let i = old(tok)@.index;
            match r {
                Ok(l) => {
                    &&& marker_grammar::token(s, i, Rule::Semicolon) is Some
                    &&& marker_grammar::read_marker(s, i + 1) matches Ok((t, j)) && t
                        == markers::trees(l@) && tokenizer::reached(
                        *old(tok),
                        *final(tok),
                        marker_grammar::blank(s, j),
                    )
                },
                Err(e) => {
                    &&& e.source@ == s
                    &&& if marker_grammar::token(s, i, Rule::Semicolon) is None {
                        e.error() == (SyntaxError {
                            message: "Expected "@ + expected@ + " or end"@,
                            start: from as nat,
                            end: text::byte_at(s, i),
                        })
                    } else {
                        marker_grammar::read_marker(s, i + 1) matches Err(f) && f == e.error()
                    }
                },
            }
        }),
{
    if !tok.check(Rule::Semicolon) {
        let mut message = chars::copy("Expected ");
        message.push_str(expected);
        message.push_str(" or end");
        return Err(tok.syntax_error(&message, Some(from), None));
    }
    tok.read();
    let l = match markers::parse_marker(tok) {
        Ok(l) => l,
        Err(e) => return Err(e),
    };
    markers::skip_blank(tok);
    Ok(l)
}

/// Reads an address and a marker.
#[verifier::rlimit(30)]
fn parse_url(tok: &mut Tokenizer) -> (r: Result<ParsedDetails, ParserSyntaxError>)
    requires
        ready(*old(tok)),
    ensures
        ({
            let found = requirement_grammar::read_url(old(tok)@.source, old(tok)@.index);
            match r {
                Ok(d) => found matches Ok((t, i)) && t == d.details() && tokenizer::reached(
                    *old(tok),
                    *final(tok),
                    i,
                ),
                Err(e) => found matches Err(f) && f == e.error() && e.source@ == old(tok)@.source,
            }
        }),
{
    proof {
        reveal(requirement_grammar::read_url);
        reveal(requirement_grammar::read_tail);
    }
    let begin: usize = tok.position();
    proof {
        assert("Expected "@ + "URL after @"@ =~= "Expected URL after @"@) by {
            reveal_strlit("Expected ");
            reveal_strlit("URL after @");
            reveal_strlit("Expected URL after @");
        }
        assert("Expected "@ + "whitespace after URL"@ =~= "Expected whitespace after URL"@) by {
            reveal_strlit("Expected ");
            reveal_strlit("whitespace after URL");
            reveal_strlit("Expected whitespace after URL");
        }
    }
    let url = match tok.expect(Rule::Url, "URL after @") {
        Ok(token) => token.text,
        Err(e) => return Err(e),
    };
    let specifier = String::new();
    assert(specifier@ =~= Seq::empty());
    if tok.peek(Rule::End) {
        return Ok(ParsedDetails { url, specifier, marker: None });
    }
    if let Err(e) = tok.expect(Rule::Ws, "whitespace after URL") {
        return Err(e);
    }
    if tok.peek(Rule::End) {
        return Ok(ParsedDetails { url, specifier, marker: None });
    }
    match parse_requirement_marker(tok, begin, "semicolon (after URL and whitespace)") {
        Ok(l) => Ok(ParsedDetails { url, specifier, marker: Some(l) }),
        Err(e) => Err(e),
    }
}

/// Reads what follows the extras.
#[verifier::rlimit(30)]
fn parse_requirement_details(tok: &mut Tokenizer) -> (r: Result<ParsedDetails, ParserSyntaxError>)
    requires
        ready(*old(tok)),
    ensures
        ({
            let found = requirement_grammar::read_details(old(tok)@.source, old(tok)@.index);
            match r {
                Ok(d) => found matches Ok((t, i)) && t == d.details() && tokenizer::reached(
                    *old(tok),
                    *final(tok),
                    i,
                ),
                Err(e) => found matches Err(f) && f == e.error() && e.source@ == old(tok)@.source,
            }
        }),
{
    proof {
        reveal(requirement_grammar::read_details);
        reveal(requirement_grammar::read_tail);
    }
    if tok.check(Rule::At) {
        tok.read();
        markers::skip_blank(tok);
        return parse_url(tok);
    }
    let begin: usize = tok.position();
    let specifier = match parse_specifier(tok) {
        Ok(t) => t,
        Err(e) => return Err(e),
    };
    markers::skip_blank(tok);
    let url = String::new();
    assert(url@ =~= Seq::empty());
    if tok.peek(Rule::End) {
        return Ok(ParsedDetails { url, specifier, marker: None });
    }
    let expected = if specifier.as_str().is_empty() {
        "semicolon (after name with no version specifier)"
    } else {
        "comma (within version specifier), semicolon (after version specifier)"
    };
    match parse_requirement_marker(tok, begin, expected) {
        Ok(l) => Ok(ParsedDetails { url, specifier, marker: Some(l) }),
        Err(e) => Err(e),
    }
}

/// Reads what follows the name of a requirement.
#[verifier::rlimit(30)]
fn parse_body(tok: &mut Tokenizer) -> (r: Result<(Vec<String>, ParsedDetails), ParserSyntaxError>)
    requires
        ready(*old(tok)),
    ensures
        ({
            let found = requirement_grammar::read_body(old(tok)@.source, old(tok)@.index);
            match r {
                Ok((l, d)) => found matches Ok((extras, details)) && extras == text_set::texts(l@) && details
                    == d.details(),
                Err(e) => found matches Err(f) && f == e.error() && e.source@ == old(tok)@.source,
            }
        }),
{
    proof {
        reveal(requirement_grammar::read_body);
    }
    markers::skip_blank(tok);
    let extras = match parse_extras(tok) {
        Ok(l) => l,
        Err(e) => return Err(e),
    };
    markers::skip_blank(tok);
    let details = match parse_requirement_details(tok) {
        Ok(d) => d,
        Err(e) => return Err(e),
    };
    proof {
        assert("Expected "@ + "end of dependency specifier"@
            =~= "Expected end of dependency specifier"@) by {
            reveal_strlit("Expected ");
            reveal_strlit("end of dependency specifier");
            reveal_strlit("Expected end of dependency specifier");
        }
    }
    match tok.expect(Rule::End, "end of dependency specifier") {
        Ok(_) => Ok((extras, details)),
        Err(e) => Err(e),
    }
}

/// Reads a requirement that is all of the source.
#[verifier::rlimit(30)]
fn parse_requirement(tok: &mut Tokenizer) -> (r: Result<ParsedRequirement, ParserSyntaxError>)
    requires
        ready(*old(tok)),
        old(tok)@.index == 0,
    ensures
        ({
            let found = requirement_grammar::read_requirement(old(tok)@.source);
            match r {
                Ok(p) => found matches Ok(t) && t.name == p.name@ && t.extras == text_set::texts(p.extras@)
                    && t.details == p.details.details(),
                Err(e) => found matches Err(f) && f == e.error() && e.source@ == old(tok)@.source,
            }
        }),
{
    markers::skip_blank(tok);
    proof {
        assert("Expected "@ + "package name at the start of dependency specifier"@
            =~= "Expected package name at the start of dependency specifier"@) by {
            reveal_strlit("Expected ");
            reveal_strlit("package name at the start of dependency specifier");
            reveal_strlit("Expected package name at the start of dependency specifier");
        }
    }
    let name = match tok.expect(
        Rule::Identifier,
        "package name at the start of dependency specifier",
    ) {
        Ok(token) => token.text,
        Err(e) => return Err(e),
    };
    match parse_body(tok) {
        Ok((extras, details)) => Ok(ParsedRequirement { name, extras, details }),
        Err(e) => Err(e),
    }
}

// --- Requirements. ---

/// The error of a text that is not a requirement. Holds what is wrong with it, as it is shown.
#[derive(Debug, Clone, PartialEq, Eq)]
pub struct InvalidRequirement(pub String);

impl InvalidRequirement {
    /// The message of this error.
    pub fn to_string(&self) -> (r: String)
        ensures
            r@ == self.0@,
    {
        chars::copy(&self.0)
    }
}

/// A requirement, such as `requests[security]>=2.0; python_version < "3.9"`.
#[derive(Debug)]
pub struct Requirement {
    /// The name of the project, as it was written.
    pub name: String,
    /// The address after `@`, if there is one.
    pub url: Option<String>,
    /// The names of the extras. Their order does not matter, nor how often one is named.
    pub extras: Vec<String>,
    /// The version specifiers.
    pub specifier: SpecifierSet,
    /// The marker after `;`, if there is one.
    pub marker: Option<Marker>,
}

/// What a requirement says.
#[verifier::ext_equal]
pub struct RequirementSpec {
    /// The name of the project.
    pub name: Seq<char>,
    /// The address after `@`.
    pub url: Option<Seq<char>>,
    /// The names of the extras.
    pub extras: Seq<Seq<char>>,
    /// The version specifiers.
    pub specifier: SpecifierSetSpec,
    /// The marker after `;`.
    pub marker: Option<Seq<Tree>>,
}

impl View for Requirement {
    type V = RequirementSpec;

    open spec fn view(&self) -> RequirementSpec {
        RequirementSpec {
            name: self.name@,
            url: match self.url {
                Some(t) => Some(t@),
                None => None,
            },
            extras: text_set::texts(self.extras@),
            specifier: self.specifier@,
            marker: match self.marker {
                Some(m) => Some(m@),
                None => None,
            },
        }
    }
}

/// What is wrong with a text that is not a requirement, as it is shown.
pub open spec fn requirement_error(s: Seq<char>) -> Option<Seq<char>> {
    match requirement_grammar::read_requirement(s) {
        Err(e) => Some(tokenizer::error_text(e, s)),
        Ok(p) => match specifier_set::read_set(p.details.specifier) {
            Err(t) => Some("Invalid specifier: '"@ + t + "'"@),
            Ok(_) => None,
        },
    }
}

/// Whether a text that is a requirement says this one. The extras are those of the text in
/// order, each once.
pub open spec fn says(s: Seq<char>, q: RequirementSpec) -> bool {
    &&& requirement_grammar::read_requirement(s) matches Ok(p) && {
        &&& q.name == p.name
        &&& q.url == (if p.details.url.len() == 0 {
            None::<Seq<char>>
        } else {
            Some(p.details.url)
        })
        &&& q.extras == text_set::ordered(p.extras)
        &&& specifier_set::read_set(p.details.specifier) == Ok::<Seq<SpecifierSpec>, Seq<char>>(
            q.specifier.specs,
        )
        &&& q.specifier.prereleases is None
        &&& q.marker == (match p.details.marker {
            Some(l) => Some(marker_grammar::normal_list(l)),
            None => None,
        })
    }
}

/// Extras in brackets; nothing where there are none.
pub open spec fn extras_text(l: Seq<Seq<char>>) -> Seq<char> {
    if l.len() == 0 {
        Seq::empty()
    } else {
        "["@ + text::join(l, specifier_set::comma()) + "]"@
    }
}

/// An address, with a space behind it where a marker follows.
pub open spec fn url_text(url: Option<Seq<char>>, before_marker: bool) -> Seq<char> {
    match url {
        Some(t) => "@ "@ + t + (if before_marker {
            " "@
        } else {
            Seq::empty()
        }),
        None => Seq::empty(),
    }
}

/// A marker behind a semicolon.
pub open spec fn marker_text(marker: Option<Seq<Tree>>) -> Seq<char> {
    match marker {
        Some(l) => "; "@ + marker_grammar::list_text(l, true),
        None => Seq::empty(),
    }
}

/// The canonical text of a requirement.
pub open spec fn requirement_text(q: RequirementSpec) -> Seq<char> {
    q.name + extras_text(text_set::ordered(q.extras)) + (if q.specifier.specs.len() == 0 {
        Seq::empty()
    } else {
        specifier_set::set_text(q.specifier.specs)
    }) + url_text(q.url, q.marker is Some) + marker_text(q.marker)
}

/// The text of a marker, if there is one.
pub open spec fn opt_marker_text(marker: Option<Seq<Tree>>) -> Option<Seq<char>> {
    match marker {
        Some(l) => Some(marker_grammar::list_text(l, true)),
        None => None,
    }
}

/// Whether two requirements are equal. Names are compared in normalized form.
pub open spec fn same_requirement(a: RequirementSpec, b: RequirementSpec) -> bool {
    &&& names::canonical_name(a.name) == names::canonical_name(b.name)
    &&& text_set::same_members(a.extras, b.extras)
    &&& specifier_set::same_set(a.specifier, b.specifier)
    &&& a.url == b.url
    &&& opt_marker_text(a.marker) == opt_marker_text(b.marker)
}

/// Copies of strings.
fn copy_texts(l: &Vec<String>) -> (r: Vec<String>)
    ensures
        text_set::texts(r@) == text_set::texts(l@),
{
    let mut out: Vec<String> = Vec::new();
    let mut i: usize = 0;
    assert(text_set::texts(out@) =~= text_set::texts(l@).take(0));
    while i < l.len()
        invariant
            i <= l@.len(),
            text_set::texts(out@) == text_set::texts(l@).take(i as int),
        decreases l@.len() - i,
    {
        let t = chars::copy(&l[i]);
        let ghost before = text_set::texts(out@);
        out.push(t);
        assert(text_set::texts(out@) =~= before.push(t@));
        assert(text_set::texts(l@).take(i + 1) =~= before.push(text_set::texts(l@)[i as int]));
        i += 1;
    }
    assert(text_set::texts(l@).take(i as int) =~= text_set::texts(l@));
    out
}

/// Whether two optional strings are the same.
fn same_option(a: &Option<String>, b: &Option<String>) -> (r: bool)
    ensures
        r == match (*a, *b) {
            (Some(s), Some(t)) => s@ == t@,
            (None, None) => true,
            _ => false,
        },
{
    match (a, b) {
        (Some(s), Some(t)) => chars::same_text(s, t),
        (None, None) => true,
        _ => false,
    }
}

impl Requirement {
    /// Reads a requirement.
    pub fn parse(requirement: &str) -> (r: Result<Requirement, InvalidRequirement>)
        ensures
            match r {
                Ok(q) => requirement_error(requirement@) is None && says(requirement@, q@),
                Err(e) => requirement_error(requirement@) == Some(e.0@),
            },
    {
        let mut tok = Tokenizer::new(requirement);
        let parsed = match parse_requirement(&mut tok) {
            Ok(p) => p,
            Err(e) => return Err(InvalidRequirement(e.to_string())),
        };
        let ParsedRequirement { name, extras, details } = parsed;
        let ParsedDetails { url, specifier, marker } = details;
        let specifier = match SpecifierSet::parse(&specifier) {
            Ok(s) => s,
            Err(e) => return Err(InvalidRequirement(e.to_string())),
        };
        let url = if url.as_str().is_empty() {
            None
        } else {
            Some(url)
        };
        let extras = text_set::sort(&extras);
        let marker = match marker {
            Some(l) => Some(Marker::from_tree(l)),
            None => None,
        };
        Ok(Requirement { name, url, extras, specifier, marker })
    }

    /// The canonical text of the requirement: extras and version specifiers in order.
    pub fn to_string(&self) -> (r: String)
        ensures
            r@ == requirement_text(self@),
    {
        let mut out = chars::copy(&self.name);
        let extras = text_set::sort(&self.extras);
        if extras.len() > 0 {
            out.push_str("[");
            text_set::push_joined(&mut out, &extras);
            out.push_str("]");
        }
        assert(out@ =~= self@.name + extras_text(text_set::ordered(self@.extras)));
        if !self.specifier.is_empty() {
            out.push_str(&self.specifier.to_string());
        }
        let ghost start = out@;
        if let Some(url) = &self.url {
            out.push_str("@ ");
            out.push_str(url);
            if self.marker.is_some() {
                out.push_str(" ");
            }
        }
        assert(out@ =~= start + url_text(self@.url, self@.marker is Some));
        let ghost start = out@;
        if let Some(marker) = &self.marker {
            out.push_str("; ");
            out.push_str(&marker.to_string());
        }
        assert(out@ =~= start + marker_text(self@.marker));
        assert(out@ =~= requirement_text(self@));
        out
    }
}

impl Clone for Requirement {
    fn clone(&self) -> (r: Requirement)
        ensures
            r@ == self@,
    {
        let url = match &self.url {
            Some(t) => Some(chars::copy(t)),
            None => None,
        };
        let marker = match &self.marker {
            Some(m) => Some(m.clone()),
            None => None,
        };
        Requirement {
            name: chars::copy(&self.name),
            url,
            extras: copy_texts(&self.extras),
            specifier: self.specifier.clone(),
            marker,
        }
    }
}

impl FromStr for Requirement {
    type Err = InvalidRequirement;

    fn from_str(s: &str) -> (r: Result<Requirement, InvalidRequirement>)
        ensures
            match r {
                Ok(q) => requirement_error(s@) is None && says(s@, q@),
                Err(e) => requirement_error(s@) == Some(e.0@),
            },
    {
        Requirement::parse(s)
    }
}

impl PartialEq for Requirement {
    fn eq(&self, other: &Requirement) -> (r: bool) {
        let same_marker = match (&self.marker, &other.marker) {
            (Some(a), Some(b)) => *a == *b,
            (None, None) => true,
            _ => false,
        };
        chars::same_text(
            &names::canonicalize_name(&self.name),
            &names::canonicalize_name(&other.name),
        ) && text_set::same_strings(&self.extras, &other.extras) && self.specifier == other.specifier
            && same_option(&self.url, &other.url) && same_marker
    }
}

impl vstd::std_specs::cmp::PartialEqSpecImpl for Requirement {
    open spec fn obeys_eq_spec() -> bool {
        true
    }

    open spec fn eq_spec(&self, other: &Requirement) -> bool {
        same_requirement(self@, other@)
    }
}

impl Eq for Requirement {

}

impl Requirement {
    /// A text that equal requirements share.
    pub fn key_text(&self) -> (r: String)
        ensures
            r@ == key_text(self@),
    {
        let mut out = names::canonicalize_name(&self.name);
        out.push_str("[");
        text_set::push_joined(&mut out, &text_set::sort(&self.extras));
        out.push_str("]");
        out.push_str(&self.specifier.key_text());
        if let Some(url) = &self.url {
            out.push_str("@ ");
            out.push_str(url);
        }
        if let Some(marker) = &self.marker {
            out.push_str("; ");
            out.push_str(&marker.to_string());
        }
        assert(out@ =~= key_text(self@));
        out
    }
}

/// A text that equal requirements share.
pub open spec fn key_text(q: RequirementSpec) -> Seq<char> {
    names::canonical_name(q.name) + "["@ + text::join(
        text_set::ordered(q.extras),
        specifier_set::comma(),
    ) + "]"@ + specifier_set::key_text(q.specifier.specs) + url_text(q.url, false) + marker_text(q.marker)
}

/// Equal requirements share their key text.
pub proof fn law_equal_key(a: RequirementSpec, b: RequirementSpec)
    requires
        same_requirement(a, b),
    ensures
        key_text(a) == key_text(b),
{
    text_set::law_same_ordered(a.extras, b.extras);
    specifier_set::law_equal_key(a.specifier, b.specifier);
}

impl Hash for Requirement {
    fn hash<H: Hasher>(&self, state: &mut H) {
        self.key_text().hash(state);
    }
}

} // verus!
