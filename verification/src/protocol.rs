//! A line protocol: a command with fields between tabs, and an answer of one line.

use vstd::prelude::*;

use crate::canonical;
use crate::chars;
use crate::clause;
use crate::filenames;
use crate::grammar::VersionSpec;
use crate::marker_grammar;
use crate::markers::Marker;
use crate::matching;
use crate::names;
use crate::order::Sign;
use crate::ranking;
use crate::requirements::{self, Requirement, RequirementSpec};
use crate::specifier_set::{self, SpecifierSet, SpecifierSetSpec};
use crate::specifiers::{self, Specifier, SpecifierSpec};
use crate::text;
use crate::version::{self, Version};

verus! {

/// The tab, as a character to split at.
pub open spec fn tab() -> Seq<char> {
    seq!['\t']
}

/// The fields of a line.
pub open spec fn fields(line: Seq<char>) -> Seq<Seq<char>> {
    text::split(line, tab())
}

/// A truth value as text.
pub open spec fn bool_text(b: bool) -> Seq<char> {
    if b {
        "true"@
    } else {
        "false"@
    }
}

/// The answer to a version: its canonical text and whether it is a pre-release.
pub open spec fn version_answer(s: Seq<char>) -> Seq<char> {
    match version::parse_version(s) {
        Some(v) => "ok\t"@ + canonical::render(v) + "\t"@ + bool_text(version::is_prerelease(v)),
        None => "err"@,
    }
}

/// The answer to two versions: how they compare.
pub open spec fn compare_answer(s: Seq<char>, t: Seq<char>) -> Seq<char> {
    match (version::parse_version(s), version::parse_version(t)) {
        (Some(v), Some(w)) => if ranking::compare(v, w) < 0 {
            "lt"@
        } else if ranking::compare(v, w) == 0 {
            "eq"@
        } else {
            "gt"@
        },
        _ => "err"@,
    }
}

/// The specifier that a text says.
pub open spec fn specifier(s: Seq<char>) -> Option<SpecifierSpec> {
    match clause::read_clause(s) {
        Some((operator, version)) => Some(SpecifierSpec { operator, version, prereleases: None }),
        None => None,
    }
}

/// The set of specifiers that a text says.
pub open spec fn set(s: Seq<char>) -> Option<SpecifierSetSpec> {
    match specifier_set::read_set(s) {
        Ok(specs) => Some(SpecifierSetSpec { specs, prereleases: None }),
        Err(_) => None,
    }
}

/// The answer to a name and a version: both, with a tab between them.
pub open spec fn file_answer(name: Seq<char>, v: VersionSpec) -> Seq<char> {
    "ok\t"@ + name + "\t"@ + canonical::render(v)
}

/// Whether something is right, as text.
pub open spec fn checked(ok: bool) -> Seq<char> {
    if ok {
        "ok"@
    } else {
        "err"@
    }
}

/// The commands.
#[derive(Debug, Clone, Copy, PartialEq, Eq, Structural)]
pub enum Command {
    /// `V`: the canonical text of a version and whether it is a pre-release.
    Version,
    /// `VC`: how two versions compare.
    Compare,
    /// `CN`: the normalized form of a name.
    Name,
    /// `IN`: whether a name is in normalized form.
    IsName,
    /// `CV`: the canonical text of a version, without zeros at its end where `1` follows.
    Canonical,
    /// `S`: whether a text is a specifier.
    Specifier,
    /// `SC`: whether a specifier contains a version.
    SpecifierContains,
    /// `SS`: whether a text is a set of specifiers.
    Specifiers,
    /// `SSC`: whether a set of specifiers contains a version.
    SpecifiersContain,
    /// `M`: the canonical text of a marker.
    Marker,
    /// `R`: the canonical text of a requirement.
    Requirement,
    /// `WH`: the name and version of a wheel.
    Wheel,
    /// `SD`: the name and version of a source archive.
    Sdist,
}

/// The command that a text says.
pub open spec fn command_of(s: Seq<char>) -> Option<Command> {
    if s == "V"@ {
        Some(Command::Version)
    } else if s == "VC"@ {
        Some(Command::Compare)
    } else if s == "CN"@ {
        Some(Command::Name)
    } else if s == "IN"@ {
        Some(Command::IsName)
    } else if s == "CV"@ {
        Some(Command::Canonical)
    } else if s == "S"@ {
        Some(Command::Specifier)
    } else if s == "SC"@ {
        Some(Command::SpecifierContains)
    } else if s == "SS"@ {
        Some(Command::Specifiers)
    } else if s == "SSC"@ {
        Some(Command::SpecifiersContain)
    } else if s == "M"@ {
        Some(Command::Marker)
    } else if s == "R"@ {
        Some(Command::Requirement)
    } else if s == "WH"@ {
        Some(Command::Wheel)
    } else if s == "SD"@ {
        Some(Command::Sdist)
    } else {
        None
    }
}

/// The field at a place, if there is one.
pub open spec fn field(f: Seq<Seq<char>>, i: int) -> Option<Seq<char>> {
    if 0 <= i < f.len() {
        Some(f[i])
    } else {
        None
    }
}

/// The answer to whether a specifier contains a version. What is no specifier is answered
/// without the version.
pub open spec fn contains_answer(s: Seq<char>, t: Option<Seq<char>>) -> Option<Seq<char>> {
    match (specifier(s), t) {
        (None, _) => Some("err"@),
        (Some(p), Some(u)) => Some(bool_text(specifiers::contains(p, u, None))),
        (Some(_), None) => None,
    }
}

/// The answer to whether a set of specifiers contains a version.
pub open spec fn set_contains_answer(s: Seq<char>, t: Option<Seq<char>>) -> Option<Seq<char>> {
    match (set(s), t) {
        (None, _) => Some("err"@),
        (Some(p), Some(u)) => Some(bool_text(specifier_set::contains(p, u, None))),
        (Some(_), None) => None,
    }
}

/// The answer to a marker.
pub open spec fn marker_answer(s: Seq<char>) -> Seq<char> {
    match marker_grammar::read_full(s) {
        Ok(l) => "ok\t"@ + marker_grammar::list_text(marker_grammar::normal_list(l), true),
        Err(_) => "err"@,
    }
}

/// Whether an answer is that to a requirement.
pub open spec fn is_requirement_answer(s: Seq<char>, r: Seq<char>) -> bool {
    if requirements::requirement_error(s) is Some {
        r == "err"@
    } else {
        exists|q: RequirementSpec| #[trigger]
            requirements::says(s, q) && r == "ok\t"@ + requirements::requirement_text(q)
    }
}

/// The answer to the name of a wheel.
pub open spec fn wheel_answer(s: Seq<char>) -> Seq<char> {
    if filenames::wheel_error(s, false) is None {
        let p = filenames::pieces(filenames::without_end(s, 4));
        file_answer(names::canonical_name(p[0]), version::parse_version(p[1]).unwrap())
    } else {
        "err"@
    }
}

/// The answer to the name of a source archive.
pub open spec fn sdist_answer(s: Seq<char>) -> Seq<char> {
    match filenames::read_sdist(s) {
        Ok((name, v)) => file_answer(name, v),
        Err(_) => "err"@,
    }
}

/// Whether an answer is that to a command with a first and perhaps a second argument.
pub open spec fn is_command_answer(
    command: Command,
    s: Seq<char>,
    t: Option<Seq<char>>,
    r: Option<Seq<char>>,
) -> bool {
    match command {
        Command::Version => r == Some(version_answer(s)),
        Command::Compare => match t {
            Some(u) => r == Some(compare_answer(s, u)),
            None => r is None,
        },
        Command::Name => r == Some(names::canonical_name(s)),
        Command::IsName => r == Some(bool_text(names::is_normalized(s))),
        Command::Canonical => match t {
            Some(u) => r == Some(canonical::canonicalize(s, u == "1"@)),
            None => r is None,
        },
        Command::Specifier => r == Some(checked(specifier(s) is Some)),
        Command::SpecifierContains => r == contains_answer(s, t),
        Command::Specifiers => r == Some(checked(set(s) is Some)),
        Command::SpecifiersContain => r == set_contains_answer(s, t),
        Command::Marker => r == Some(marker_answer(s)),
        Command::Requirement => r matches Some(u) && is_requirement_answer(s, u),
        Command::Wheel => r == Some(wheel_answer(s)),
        Command::Sdist => r == Some(sdist_answer(s)),
    }
}

/// Whether an answer is that to a line. There is none where an argument is missing.
pub open spec fn is_answer(line: Seq<char>, r: Option<Seq<char>>) -> bool {
    let f = fields(line);
    match command_of(f[0]) {
        None => r == Some("UNKNOWN:"@ + f[0]),
        Some(command) => match field(f, 1) {
            None => r is None,
            Some(s) => is_command_answer(command, s, field(f, 2), r),
        },
    }
}

// --- Executable forms. ---

fn from_bool(b: bool) -> (r: String)
    ensures
        r@ == bool_text(b),
{
    if b {
        chars::copy("true")
    } else {
        chars::copy("false")
    }
}

fn ok_or_err(ok: bool) -> (r: String)
    ensures
        r@ == checked(ok),
{
    if ok {
        chars::copy("ok")
    } else {
        chars::copy("err")
    }
}

fn file_line(name: &str, v: &Version) -> (r: String)
    ensures
        r@ == file_answer(name@, v@),
{
    let mut out = chars::copy("ok\t");
    out.push_str(name);
    out.push_str("\t");
    out.push_str(&v.to_string());
    out
}

/// Answers a version.
pub fn ver_line(v: &str) -> (r: String)
    ensures
        r@ == version_answer(v@),
{
    match Version::parse(v) {
        Ok(p) => {
            let mut out = chars::copy("ok\t");
            out.push_str(&p.to_string());
            out.push_str("\t");
            out.push_str(&from_bool(p.is_prerelease()));
            out
        },
        Err(_) => chars::copy("err"),
    }
}

fn compare_line(s: &str, t: &str) -> (r: String)
    ensures
        r@ == compare_answer(s@, t@),
{
    match (Version::parse(s), Version::parse(t)) {
        (Ok(v), Ok(w)) => match v.compare(&w) {
            Sign::Before => chars::copy("lt"),
            Sign::Same => chars::copy("eq"),
            Sign::After => chars::copy("gt"),
        },
        _ => chars::copy("err"),
    }
}

fn marker_line(s: &str) -> (r: String)
    ensures
        r@ == marker_answer(s@),
{
    match Marker::parse(s) {
        Ok(m) => {
            let mut out = chars::copy("ok\t");
            out.push_str(&m.to_string());
            out
        },
        Err(_) => chars::copy("err"),
    }
}

fn requirement_line(s: &str) -> (r: String)
    ensures
        is_requirement_answer(s@, r@),
{
    match Requirement::parse(s) {
        Ok(q) => {
            let mut out = chars::copy("ok\t");
            out.push_str(&q.to_string());
            assert(requirements::says(s@, q@));
            out
        },
        Err(_) => chars::copy("err"),
    }
}

fn wheel_line(s: &str) -> (r: String)
    ensures
        r@ == wheel_answer(s@),
{
    match filenames::parse_wheel_filename(s, false) {
        Ok((name, v, _, _)) => file_line(&name, &v),
        Err(_) => chars::copy("err"),
    }
}

fn sdist_line(s: &str) -> (r: String)
    ensures
        r@ == sdist_answer(s@),
{
    match filenames::parse_sdist_filename(s) {
        Ok((name, v)) => file_line(&name, &v),
        Err(_) => chars::copy("err"),
    }
}

/// Strings as texts.
pub open spec fn opt_view(t: Option<String>) -> Option<Seq<char>> {
    match t {
        Some(u) => Some(u@),
        None => None,
    }
}

fn contains_line(s: &str, t: &Option<String>) -> (r: Option<String>)
    ensures
        opt_view(r) == contains_answer(s@, opt_view(*t)),
{
    match Specifier::parse(s) {
        Ok(p) => match t {
            Some(u) => Some(from_bool(p.contains(u, None))),
            None => None,
        },
        Err(_) => Some(chars::copy("err")),
    }
}

fn set_contains_line(s: &str, t: &Option<String>) -> (r: Option<String>)
    ensures
        opt_view(r) == set_contains_answer(s@, opt_view(*t)),
{
    match SpecifierSet::parse(s) {
        Ok(p) => match t {
            Some(u) => Some(from_bool(p.contains(u, None))),
            None => None,
        },
        Err(_) => Some(chars::copy("err")),
    }
}

/// The command that a text says.
fn read_command(s: &[char]) -> (r: Option<Command>)
    ensures
        r == command_of(s@),
{
    if chars::is_text(s, "V") {
        Some(Command::Version)
    } else if chars::is_text(s, "VC") {
        Some(Command::Compare)
    } else if chars::is_text(s, "CN") {
        Some(Command::Name)
    } else if chars::is_text(s, "IN") {
        Some(Command::IsName)
    } else if chars::is_text(s, "CV") {
        Some(Command::Canonical)
    } else if chars::is_text(s, "S") {
        Some(Command::Specifier)
    } else if chars::is_text(s, "SC") {
        Some(Command::SpecifierContains)
    } else if chars::is_text(s, "SS") {
        Some(Command::Specifiers)
    } else if chars::is_text(s, "SSC") {
        Some(Command::SpecifiersContain)
    } else if chars::is_text(s, "M") {
        Some(Command::Marker)
    } else if chars::is_text(s, "R") {
        Some(Command::Requirement)
    } else if chars::is_text(s, "WH") {
        Some(Command::Wheel)
    } else if chars::is_text(s, "SD") {
        Some(Command::Sdist)
    } else {
        None
    }
}

/// Answers a command with a first and perhaps a second argument.
fn run(command: Command, s: &str, t: &Option<String>) -> (r: Option<String>)
    ensures
        is_command_answer(command, s@, opt_view(*t), opt_view(r)),
{
    match command {
        Command::Version => Some(ver_line(s)),
        Command::Compare => match t {
            Some(u) => Some(compare_line(s, u)),
            None => None,
        },
        Command::Name => Some(names::canonicalize_name(s)),
        Command::IsName => Some(from_bool(names::is_normalized_name(s))),
        Command::Canonical => match t {
            Some(u) => Some(matching::canonicalize_version(s, chars::same_text(u, "1"))),
            None => None,
        },
        Command::Specifier => Some(ok_or_err(Specifier::parse(s).is_ok())),
        Command::SpecifierContains => contains_line(s, t),
        Command::Specifiers => Some(ok_or_err(SpecifierSet::parse(s).is_ok())),
        Command::SpecifiersContain => set_contains_line(s, t),
        Command::Marker => Some(marker_line(s)),
        Command::Requirement => Some(requirement_line(s)),
        Command::Wheel => Some(wheel_line(s)),
        Command::Sdist => Some(sdist_line(s)),
    }
}

/// Answers a line. There is no answer where an argument is missing.
pub fn respond(line: &str) -> (r: Option<String>)
    ensures
        is_answer(line@, opt_view(r)),
{
    let cs = chars::chars_of(line);
    let marks = ['\t'];
    assert(marks@ =~= tab());
    let f = chars::split(&cs, &marks);
    let ghost all = fields(line@);
    assert(chars::views(f@) == all);
    proof {
        text::lemma_split_parts(line@, tab());
    }
    assert(all[0] == f@[0]@);
    let command = match read_command(f[0]) {
        Some(c) => c,
        None => {
            let mut out = chars::copy("UNKNOWN:");
            chars::push_chars(&mut out, f[0]);
            return Some(out);
        },
    };
    if f.len() < 2 {
        return None;
    }
    assert(all[1] == f@[1]@);
    let s = chars::string_of(f[1]);
    let t = if f.len() > 2 {
        assert(all[2] == f@[2]@);
        Some(chars::string_of(f[2]))
    } else {
        None
    };
    run(command, &s, &t)
}

} // verus!
