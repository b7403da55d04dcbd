//! Laws of the commands: what each line is answered.

use vstd::prelude::*;

use crate::canonical;
use crate::clause;
use crate::filenames;
use crate::marker_grammar;
use crate::names;
use crate::protocol::{self, Command};
use crate::ranking;
use crate::specifier_set::{self, SpecifierSetSpec};
use crate::specifiers::{self, SpecifierSpec};
use crate::text;
use crate::version;

verus! {

/// A line of a command and one argument.
pub open spec fn one(code: Seq<char>, s: Seq<char>) -> Seq<char> {
    code + "\t"@ + s
}

/// A line of a command and two arguments.
pub open spec fn two(code: Seq<char>, s: Seq<char>, t: Seq<char>) -> Seq<char> {
    code + "\t"@ + s + "\t"@ + t
}

proof fn lemma_fields(parts: Seq<Seq<char>>)
    requires
        parts.len() > 0,
        forall|i: int| 0 <= i < parts.len() ==> !(#[trigger] parts[i]).contains('\t'),
    ensures
        protocol::fields(text::join(parts, seq!['\t'])) == parts,
{
    let marks = protocol::tab();
    assert forall|i: int, j: int|
        0 <= i < parts.len() && 0 <= j < parts[i].len() implies !marks.contains(
        #[trigger] parts[i][j],
    ) by {
        assert(parts[i].contains(parts[i][j]));
    }
    assert(marks[0] == '\t');
    assert(marks.contains('\t'));
    text::lemma_split_join(parts, '\t', marks);
}

proof fn lemma_one(code: Seq<char>, s: Seq<char>)
    requires
        !code.contains('\t'),
        !s.contains('\t'),
    ensures
        protocol::fields(one(code, s)) == seq![code, s],
{
    reveal_strlit("\t");
    let parts = seq![code, s];
    assert(parts.skip(1) =~= seq![s]);
    assert(text::join(seq![s], seq!['\t']) == s);
    assert(text::join(parts, seq!['\t']) =~= one(code, s));
    lemma_fields(parts);
}

proof fn lemma_two(code: Seq<char>, s: Seq<char>, t: Seq<char>)
    requires
        !code.contains('\t'),
        !s.contains('\t'),
        !t.contains('\t'),
    ensures
        protocol::fields(two(code, s, t)) == seq![code, s, t],
{
    reveal_strlit("\t");
    let parts = seq![code, s, t];
    let m = parts.skip(1);
    assert(m.skip(1) =~= seq![t]);
    assert(text::join(seq![t], seq!['\t']) == t);
    assert(text::join(m, seq!['\t']) == s + seq!['\t'] + t);
    assert(text::join(parts, seq!['\t']) =~= two(code, s, t));
    lemma_fields(parts);
}

proof fn lemma_codes()
    ensures
        "V"@.len() == 1 && "V"@[0] == 'V',
        "VC"@.len() == 2 && "VC"@[0] == 'V' && "VC"@[1] == 'C',
        "CN"@.len() == 2 && "CN"@[0] == 'C' && "CN"@[1] == 'N',
        "IN"@.len() == 2 && "IN"@[0] == 'I' && "IN"@[1] == 'N',
        "CV"@.len() == 2 && "CV"@[0] == 'C' && "CV"@[1] == 'V',
        "S"@.len() == 1 && "S"@[0] == 'S',
        "SC"@.len() == 2 && "SC"@[0] == 'S' && "SC"@[1] == 'C',
        "SS"@.len() == 2 && "SS"@[0] == 'S' && "SS"@[1] == 'S',
        "SSC"@.len() == 3 && "SSC"@[0] == 'S' && "SSC"@[1] == 'S' && "SSC"@[2] == 'C',
        "M"@.len() == 1 && "M"@[0] == 'M',
        "R"@.len() == 1 && "R"@[0] == 'R',
        "WH"@.len() == 2 && "WH"@[0] == 'W' && "WH"@[1] == 'H',
        "SD"@.len() == 2 && "SD"@[0] == 'S' && "SD"@[1] == 'D',
{
    reveal_strlit("V");
    reveal_strlit("VC");
    reveal_strlit("CN");
    reveal_strlit("IN");
    reveal_strlit("CV");
    reveal_strlit("S");
    reveal_strlit("SC");
    reveal_strlit("SS");
    reveal_strlit("SSC");
    reveal_strlit("M");
    reveal_strlit("R");
    reveal_strlit("WH");
    reveal_strlit("SD");
}

/// Whether a text is one of the codes of the commands.
spec fn is_code(code: Seq<char>) -> bool {
    protocol::command_of(code) is Some
}

proof fn lemma_code(code: Seq<char>)
    requires
        is_code(code),
    ensures
        !code.contains('\t'),
{
    lemma_codes();
}

proof fn lemma_answer(code: Seq<char>, s: Seq<char>, t: Seq<char>, r: Option<Seq<char>>)
    requires
        is_code(code),
        !s.contains('\t'),
        !t.contains('\t'),
    ensures
        protocol::is_answer(one(code, s), r) <==> protocol::is_command_answer(
            protocol::command_of(code).unwrap(),
            s,
            None,
            r,
        ),
        protocol::is_answer(two(code, s, t), r) <==> protocol::is_command_answer(
            protocol::command_of(code).unwrap(),
            s,
            Some(t),
            r,
        ),
{
    lemma_code(code);
    lemma_one(code, s);
    lemma_two(code, s, t);
}

/// Each code says its command.
proof fn lemma_commands()
    ensures
        protocol::command_of("V"@) == Some(Command::Version),
        protocol::command_of("VC"@) == Some(Command::Compare),
        protocol::command_of("CN"@) == Some(Command::Name),
        protocol::command_of("IN"@) == Some(Command::IsName),
        protocol::command_of("CV"@) == Some(Command::Canonical),
        protocol::command_of("S"@) == Some(Command::Specifier),
        protocol::command_of("SC"@) == Some(Command::SpecifierContains),
        protocol::command_of("SS"@) == Some(Command::Specifiers),
        protocol::command_of("SSC"@) == Some(Command::SpecifiersContain),
        protocol::command_of("M"@) == Some(Command::Marker),
        protocol::command_of("R"@) == Some(Command::Requirement),
        protocol::command_of("WH"@) == Some(Command::Wheel),
        protocol::command_of("SD"@) == Some(Command::Sdist),
{
    lemma_codes();
}

/// A truth value as it is answered.
pub open spec fn truth(b: bool) -> Seq<char> {
    if b {
        "true"@
    } else {
        "false"@
    }
}

/// Versions and names: `V` answers the canonical text and whether it is a pre-release, `VC` how
/// two versions compare, `CV` the canonical text, `CN` the normalized name, and `IN` whether a
/// name is normalized.
pub proof fn law_versions_and_names(s: Seq<char>, t: Seq<char>, r: Option<Seq<char>>)
    requires
        !s.contains('\t'),
        !t.contains('\t'),
    ensures
        protocol::is_answer(one("V"@, s), r) <==> r == Some(
            match version::parse_version(s) {
                Some(v) => "ok\t"@ + canonical::render(v) + "\t"@ + truth(
                    v.pre is Some || v.dev is Some,
                ),
                None => "err"@,
            },
        ),
        protocol::is_answer(two("VC"@, s, t), r) <==> r == Some(
            match (version::parse_version(s), version::parse_version(t)) {
                (Some(v), Some(w)) => if ranking::compare(v, w) < 0 {
                    "lt"@
                } else if ranking::compare(v, w) > 0 {
                    "gt"@
                } else {
                    "eq"@
                },
                _ => "err"@,
            },
        ),
        protocol::is_answer(two("CV"@, s, t), r) <==> r == Some(
            canonical::canonicalize(s, t == "1"@),
        ),
        protocol::is_answer(one("CN"@, s), r) <==> r == Some(names::canonical_name(s)),
        protocol::is_answer(one("IN"@, s), r) <==> r == Some(truth(names::is_normalized(s))),
{
    lemma_commands();
    lemma_answer("V"@, s, t, r);
    lemma_answer("VC"@, s, t, r);
    lemma_answer("CV"@, s, t, r);
    lemma_answer("CN"@, s, t, r);
    lemma_answer("IN"@, s, t, r);
}

/// Specifiers: `S` answers whether a text is a specifier, and `SC` whether it contains a version
/// with nothing asked for.
pub proof fn law_specifier(s: Seq<char>, t: Seq<char>, r: Option<Seq<char>>)
    requires
        !s.contains('\t'),
        !t.contains('\t'),
    ensures
        protocol::is_answer(one("S"@, s), r) <==> r == Some(
            if clause::read_clause(s) is Some {
                "ok"@
            } else {
                "err"@
            },
        ),
        protocol::is_answer(two("SC"@, s, t), r) <==> r == Some(
            match clause::read_clause(s) {
                Some((operator, version)) => truth(
                    specifiers::contains(
                        SpecifierSpec { operator, version, prereleases: None },
                        t,
                        None,
                    ),
                ),
                None => "err"@,
            },
        ),
{
    lemma_commands();
    lemma_answer("S"@, s, t, r);
    lemma_answer("SC"@, s, t, r);
}

/// Sets: `SS` answers whether a text is a set of specifiers, and `SSC` whether it contains a
/// version with nothing asked for.
pub proof fn law_set(s: Seq<char>, t: Seq<char>, r: Option<Seq<char>>)
    requires
        !s.contains('\t'),
        !t.contains('\t'),
    ensures
        protocol::is_answer(one("SS"@, s), r) <==> r == Some(
            if specifier_set::read_set(s) is Ok {
                "ok"@
            } else {
                "err"@
            },
        ),
        protocol::is_answer(two("SSC"@, s, t), r) <==> r == Some(
            match specifier_set::read_set(s) {
                Ok(specs) => truth(
                    specifier_set::contains(
                        SpecifierSetSpec { specs, prereleases: None },
                        t,
                        None,
                    ),
                ),
                Err(_) => "err"@,
            },
        ),
{
    lemma_commands();
    lemma_answer("SS"@, s, t, r);
    lemma_answer("SSC"@, s, t, r);
}

/// Markers and source archives: `M` answers the canonical text of a marker, and `SD` the name and
/// the version that the name of a source archive says.
pub proof fn law_markers_and_archives(s: Seq<char>, r: Option<Seq<char>>)
    requires
        !s.contains('\t'),
    ensures
        protocol::is_answer(one("M"@, s), r) <==> r == Some(
            match marker_grammar::read_full(s) {
                Ok(l) => "ok\t"@ + marker_grammar::list_text(marker_grammar::normal_list(l), true),
                Err(_) => "err"@,
            },
        ),
        protocol::is_answer(one("SD"@, s), r) <==> r == Some(
            match filenames::read_sdist(s) {
                Ok((name, v)) => "ok\t"@ + name + "\t"@ + canonical::render(v),
                Err(_) => "err"@,
            },
        ),
{
    lemma_commands();
    lemma_answer("M"@, s, s, r);
    lemma_answer("SD"@, s, s, r);
}

} // verus!
