//! Laws of how requirements are written: blanks, brackets, parentheses and commas.

use vstd::prelude::*;

use crate::admission_laws;
use crate::clause::{self, Operator};
use crate::grammar;
use crate::marker_grammar::{self, Tree};
use crate::marker_text;
use crate::names;
use crate::requirement_grammar::{self, Details, Parts};
use crate::requirement_laws;
use crate::requirements::{self, RequirementSpec};
use crate::specifier_set::{self, SpecifierSetSpec};
use crate::specifiers::SpecifierSpec;
use crate::stops;
use crate::text::{self, Class};
use crate::text_set;
use crate::token_laws;
use crate::tokenizer::{self, Rule, SyntaxError};

verus! {

// --- Extras. ---

/// An extra as it is written, with the blanks around it.
pub struct SaidExtra {
    pub before: Seq<char>,
    pub name: Seq<char>,
    pub behind: Seq<char>,
}

/// Extras as they are written, with commas between them.
pub open spec fn said_extras(l: Seq<SaidExtra>) -> Seq<char>
    decreases l.len(),
{
    if l.len() == 0 {
        Seq::empty()
    } else {
        l[0].before + (l[0].name + (l[0].behind + more_extras(l)))
    }
}

/// What follows the first extra.
pub open spec fn more_extras(l: Seq<SaidExtra>) -> Seq<char>
    decreases l.len(), 0nat,
    when l.len() > 0
{
    if l.len() == 1 {
        Seq::empty()
    } else {
        seq![','] + (l[1].before + (l[1].name + (l[1].behind + more_extras(l.skip(1)))))
    }
}

/// Whether extras are well written: they are names, with blanks around them.
pub open spec fn well_said_extras(l: Seq<SaidExtra>) -> bool {
    forall|i: int|
        0 <= i < l.len() ==> is_extra(#[trigger] l[i])
}

/// Whether an extra is well written.
pub open spec fn is_extra(x: SaidExtra) -> bool {
    &&& token_laws::is_blanks(x.before)
    &&& token_laws::is_blanks(x.behind)
    &&& requirement_laws::is_name(x.name)
}

/// The names of extras.
pub open spec fn extra_names(l: Seq<SaidExtra>) -> Seq<Seq<char>> {
    l.map_values(|x: SaidExtra| x.name)
}

/// A text that begins with a mark of the grammar.
spec fn is_mark(s: Seq<char>) -> bool {
    s.len() > 0 ==> s[0] == ',' || s[0] == ']' || s[0] == '[' || s[0] == '(' || s[0] == ')' || s[0]
        == '@' || s[0] == ';' || s[0] == '=' || s[0] == '!' || s[0] == '~' || s[0] == '<' || s[0]
        == '>'
}

proof fn lemma_ends_name(b: Seq<char>, rest: Seq<char>)
    requires
        token_laws::is_blanks(b),
        is_mark(rest),
    ensures
        requirement_laws::ends_name(b + rest),
        token_laws::no_blank(rest),
        rest.len() > 0 ==> tokenizer::identifier_len(rest) is None,
{
    if b.len() > 0 {
        assert((b + rest)[0] == b[0]);
    } else {
        assert(b + rest =~= rest);
    }
}

proof fn lemma_name_head(t: Seq<char>, rest: Seq<char>)
    requires
        requirement_laws::is_name(t),
    ensures
        token_laws::no_blank(t + rest),
        t.len() > 0,
{
    assert(text::in_class(Class::Name, t[0]));
    assert((t + rest)[0] == t[0]);
}

proof fn lemma_name_at(s: Seq<char>, i: nat, t: Seq<char>, b: Seq<char>, rest: Seq<char>)
    requires
        requirement_laws::is_name(t),
        token_laws::is_blanks(b),
        is_mark(rest),
        marker_text::at(s, i, t + (b + rest)),
    ensures
        marker_grammar::token(s, i, Rule::Identifier) == Some(t.len()),
        requirement_grammar::token_text(s, i, t.len()) == t,
        marker_text::at(s, i + t.len(), b + rest),
        marker_grammar::blank(s, i + t.len()) == i + t.len() + b.len(),
        marker_text::at(s, i + t.len() + b.len(), rest),
{
    lemma_ends_name(b, rest);
    requirement_laws::lemma_identifier(t, b + rest);
    marker_text::lemma_at(s, i, t, b + rest);
    token_laws::lemma_blanks(s, i + t.len(), b, rest);
}

proof fn lemma_more_head(l: Seq<SaidExtra>, rest: Seq<char>)
    requires
        l.len() > 0,
        rest.len() > 0,
        rest[0] == ']',
    ensures
        is_mark(more_extras(l) + rest),
        (more_extras(l) + rest).len() > 0,
{
    let m = more_extras(l) + rest;
    if l.len() == 1 {
        assert(m =~= rest);
    } else {
        assert(m[0] == ',');
    }
}

#[verifier::rlimit(30)]
proof fn lemma_more_extras(s: Seq<char>, i: nat, l: Seq<SaidExtra>, done: Seq<Seq<char>>, rest: Seq<char>)
    requires
        l.len() > 0,
        well_said_extras(l),
        rest.len() > 0,
        rest[0] == ']',
        marker_text::at(s, i, l[0].behind + (more_extras(l) + rest)),
    ensures
        ({
            let end = i + l[0].behind.len() + more_extras(l).len();
            &&& requirement_grammar::read_more_extras(s, i, done.push(l[0].name)) == Ok::<
                (Seq<Seq<char>>, nat),
                SyntaxError,
            >((done + extra_names(l), end))
            &&& marker_text::at(s, end, rest)
        }),
    decreases l.len(),
{
    reveal(requirement_grammar::read_more_extras);
    let x = l[0];
    assert(is_extra(l[0]));
    let m = more_extras(l) + rest;
    lemma_more_head(l, rest);
    lemma_ends_name(x.behind, m);
    token_laws::lemma_blanks(s, i, x.behind, m);
    let j = i + x.behind.len();
    if l.len() == 1 {
        assert(m =~= rest);
        assert(done.push(x.name) =~= done + extra_names(l));
    } else {
        let y = l[1];
        let n = l.skip(1);
        assert(n[0] == y);
        assert(is_extra(l[1]));
        assert forall|k: int| 0 <= k < n.len() implies is_extra(#[trigger] n[k]) by {
            assert(n[k] == l[k + 1]);
        }
        let r3 = y.behind + (more_extras(n) + rest);
        let r2 = y.name + r3;
        let r1 = y.before + r2;
        assert(m =~= seq![','] + r1);
        marker_text::lemma_at(s, j, seq![','], r1);
        lemma_name_head(y.name, r3);
        token_laws::lemma_blanks(s, j + 1, y.before, r2);
        let k = j + 1 + y.before.len();
        lemma_more_head(n, rest);
        lemma_name_at(s, k, y.name, y.behind, more_extras(n) + rest);
        lemma_more_extras(s, k + y.name.len(), n, done.push(x.name), rest);
        assert(done.push(x.name) + extra_names(n) =~= done + extra_names(l));
    }
}

/// Extras in brackets, as they are written. Blanks may stand in empty brackets.
pub open spec fn bracketed(l: Option<(Seq<char>, Seq<SaidExtra>)>) -> Seq<char> {
    match l {
        Some((b, extras)) => seq!['['] + (b + (said_extras(extras) + seq![']'])),
        None => Seq::empty(),
    }
}

/// Whether extras in brackets are well written.
pub open spec fn well_bracketed(l: Option<(Seq<char>, Seq<SaidExtra>)>) -> bool {
    l matches Some((b, extras)) ==> well_said_extras(extras) && token_laws::is_blanks(b) && (
    extras.len() > 0 ==> b.len() == 0)
}

/// The names of extras in brackets.
pub open spec fn bracketed_names(l: Option<(Seq<char>, Seq<SaidExtra>)>) -> Seq<Seq<char>> {
    match l {
        Some((_, extras)) => extra_names(extras),
        None => Seq::empty(),
    }
}

#[verifier::rlimit(30)]
proof fn lemma_bracketed(
    s: Seq<char>,
    i: nat,
    l: Option<(Seq<char>, Seq<SaidExtra>)>,
    rest: Seq<char>,
)
    requires
        well_bracketed(l),
        marker_text::at(s, i, bracketed(l) + rest),
        rest.len() > 0 ==> rest[0] != '[',
    ensures
        requirement_grammar::read_extras(s, i) == Ok::<(Seq<Seq<char>>, nat), SyntaxError>(
            (bracketed_names(l), i + bracketed(l).len()),
        ),
        marker_text::at(s, i + bracketed(l).len(), rest),
{
    reveal(requirement_grammar::read_extras);
    reveal(requirement_grammar::read_extras_list);
    match l {
        None => {
            assert(bracketed(l) + rest =~= rest);
        },
        Some((b, extras)) => {
            let end = seq![']'] + rest;
            assert(end[0] == ']');
            if extras.len() == 0 {
                assert(bracketed(l) + rest =~= seq!['['] + (b + end));
                marker_text::lemma_at(s, i, seq!['['], b + end);
                token_laws::lemma_blanks(s, i + 1, b, end);
                assert(extra_names(extras) =~= Seq::empty());
                marker_text::lemma_at(s, i + 1 + b.len(), seq![']'], rest);
            } else {
                let x = extras[0];
                assert(is_extra(extras[0]));
                let m = more_extras(extras) + end;
                let r = x.name + (x.behind + m);
                assert(bracketed(l) + rest =~= seq!['['] + (x.before + r));
                marker_text::lemma_at(s, i, seq!['['], x.before + r);
                lemma_name_head(x.name, x.behind + m);
                token_laws::lemma_blanks(s, i + 1, x.before, r);
                let j = i + 1 + x.before.len();
                lemma_more_head(extras, end);
                lemma_name_at(s, j, x.name, x.behind, m);
                let none = Seq::<Seq<char>>::empty();
                lemma_more_extras(s, j + x.name.len(), extras, none, end);
                assert(none.push(x.name) =~= seq![x.name]);
                assert(none + extra_names(extras) =~= extra_names(extras));
                let k = j + x.name.len() + x.behind.len() + more_extras(extras).len();
                let e = Seq::<char>::empty();
                assert(e + end =~= end);
                token_laws::lemma_blanks(s, k, e, end);
                marker_text::lemma_at(s, k, seq![']'], rest);
            }
        },
    }
}

// --- Version specifiers. ---

/// A specifier as it is written: an operator, blanks and a version, with the blanks around it.
pub struct SaidClause {
    pub before: Seq<char>,
    pub operator: Operator,
    pub gap: Seq<char>,
    pub version: Seq<char>,
    pub behind: Seq<char>,
}

/// The text of a specifier without the blanks around it.
pub open spec fn said_clause(c: SaidClause) -> Seq<char> {
    c.operator.spelling() + c.gap + c.version
}

/// Whether a specifier is well written. An `===` takes all that follows it, commas included.
pub open spec fn is_clause(c: SaidClause) -> bool {
    &&& token_laws::is_blanks(c.before)
    &&& token_laws::is_blanks(c.gap)
    &&& token_laws::is_blanks(c.behind)
    &&& c.operator != Operator::Arbitrary
    &&& clause::read_clause(c.operator.spelling() + c.version) == Some((c.operator, c.version))
}

/// Specifiers as they are written, with commas between them.
pub open spec fn said_clauses(l: Seq<SaidClause>) -> Seq<char>
    decreases l.len(),
{
    if l.len() == 0 {
        Seq::empty()
    } else if l.len() == 1 {
        l[0].before + (said_clause(l[0]) + l[0].behind)
    } else {
        l[0].before + (said_clause(l[0]) + (l[0].behind + (seq![','] + said_clauses(l.skip(1)))))
    }
}

/// Specifiers without the blanks around them, with commas between them.
pub open spec fn joined(l: Seq<SaidClause>) -> Seq<char>
    decreases l.len(),
{
    if l.len() == 0 {
        Seq::empty()
    } else if l.len() == 1 {
        said_clause(l[0])
    } else {
        said_clause(l[0]) + ","@ + joined(l.skip(1))
    }
}

/// Whether specifiers are well written.
pub open spec fn well_said(l: Seq<SaidClause>) -> bool {
    forall|i: int| 0 <= i < l.len() ==> is_clause(#[trigger] l[i])
}

/// What specifiers say.
pub open spec fn clauses_of(l: Seq<SaidClause>) -> Seq<SpecifierSpec> {
    l.map_values(
        |c: SaidClause|
            SpecifierSpec { operator: c.operator, version: c.version, prereleases: None },
    )
}

proof fn lemma_blanks_space(b: Seq<char>)
    requires
        token_laws::is_blanks(b),
    ensures
        text::all_in(Class::Space, b),
{
    assert forall|i: int| 0 <= i < b.len() implies text::in_class(Class::Space, #[trigger] b[i]) by {}
}

/// What a specifier that is well written begins with.
proof fn lemma_clause_head(c: SaidClause)
    requires
        is_clause(c),
    ensures
        said_clause(c).len() > 0,
        is_mark(said_clause(c)),
        said_clause(c)[0] != '(' && said_clause(c)[0] != '@' && said_clause(c)[0] != '[',
        !text::is_space(said_clause(c)[0]),
        token_laws::no_blank(said_clause(c)),
{
    clause::lemma_spellings();
    assert(said_clause(c)[0] == c.operator.spelling()[0]);
}

/// What holds of the version of a specifier.
proof fn lemma_clause_version(c: SaidClause)
    requires
        is_clause(c),
    ensures
        c.version.len() > 0,
        c.version[0] != '=',
        !text::is_space(c.version[0]),
        !text::is_space(c.version.last()),
        clause::version_len(c.operator, c.version) == Some(c.version.len()),
        text::all_in(Class::Space, c.gap),
{
    let v = c.version;
    clause::lemma_clause_chars(c.operator.spelling() + v);
    assert(text::in_class(Class::Plain, v[0]));
    assert(text::in_class(Class::Plain, v[v.len() - 1]));
    lemma_blanks_space(c.gap);
}

/// How much of a text is a specifier that is well written.
#[verifier::rlimit(30)]
proof fn lemma_clause_len(c: SaidClause, follow: Seq<char>)
    requires
        is_clause(c),
        stops::stops(follow),
    ensures
        clause::clause_len(said_clause(c) + follow) == Some(said_clause(c).len()),
{
    let o = c.operator.spelling();
    let v = c.version;
    lemma_clause_version(c);
    stops::lemma_version(c.operator, v, follow);
    let w = v + follow;
    let r = c.gap + w;
    let s = said_clause(c) + follow;
    assert(s =~= o + r);
    if c.gap.len() > 0 {
        assert(r[0] == c.gap[0]);
        assert(text::in_class(Class::Space, c.gap[0]));
    } else {
        assert(r =~= w);
    }
    assert(w[0] == v[0]);
    clause::lemma_operator_at(c.operator, r);
    assert(text::after(s, o.len()) =~= r);
    crate::spellings::lemma_run_behind(c.gap, w);
    assert(text::run(Class::Space, w) == 0);
    assert(text::after(r, c.gap.len()) =~= w);
    assert(clause::past_operator(s, c.operator) == w);
}

/// What a specifier that is well written says.
#[verifier::rlimit(30)]
proof fn lemma_clause_read(c: SaidClause)
    requires
        is_clause(c),
    ensures
        clause::read_clause(said_clause(c)) == Some((c.operator, c.version)),
        !said_clause(c).contains(','),
{
    let o = c.operator.spelling();
    let none = Seq::<char>::empty();
    let v = c.version;
    lemma_clause_version(c);
    admission_laws::lemma_clause_spaced(c.operator, none, c.gap, v, none);
    assert(none + (o + c.gap + v) + none =~= said_clause(c));
    if said_clause(c).contains(',') {
        let t = said_clause(c);
        let i = choose|i: int| 0 <= i < t.len() && t[i] == ',';
        if i < o.len() {
            assert(o[i] == ',');
            clause::lemma_spelling_chars(c.operator, ',');
        } else if i < o.len() + c.gap.len() {
            assert(c.gap[i - o.len()] == ',');
        } else {
            assert(v[i - o.len() - c.gap.len()] == ',');
            lemma_no_comma(o + v);
            assert(v.contains(','));
        }
    }
}

/// There is no comma in what follows an operator other than `===`.
proof fn lemma_no_comma(s: Seq<char>)
    requires
        clause::read_clause(s) matches Some((op, _)) && op != Operator::Arbitrary,
    ensures
        clause::read_clause(s) matches Some((_, t)) && !t.contains(','),
{
    let (op, t) = clause::read_clause(s).unwrap();
    clause::law_clause_version(s);
    reveal_strlit(".*");
    if t.contains(',') {
        let i = choose|i: int| 0 <= i < t.len() && t[i] == ',';
        if clause::is_pattern(op, t) {
            let b = t.take(t.len() - 2);
            clause::lemma_version_chars(b);
            admission_laws::law_only_specifiers(s);
            if i < t.len() - 2 {
                assert(b[i] == ',');
                assert(grammar::is_version_char(b[i]));
            } else {
                lemma_star(t, i);
            }
        } else {
            clause::lemma_version_chars(t);
            assert(grammar::is_version_char(t[i]));
        }
    }
}

proof fn lemma_star(t: Seq<char>, i: int)
    requires
        text::ends_with(t, clause::star()),
        t.len() - 2 <= i < t.len(),
    ensures
        t[i] != ',',
{
    reveal_strlit(".*");
    assert(t.skip(t.len() - 2)[i - (t.len() - 2)] == t[i]);
}

/// What may follow specifiers: the end, a semicolon or a closing parenthesis.
spec fn ends_clauses(s: Seq<char>) -> bool {
    s.len() > 0 ==> s[0] == ';' || s[0] == ')'
}

proof fn lemma_stops(b: Seq<char>, rest: Seq<char>)
    requires
        token_laws::is_blanks(b),
        ends_clauses(rest) || (rest.len() > 0 && rest[0] == ','),
    ensures
        stops::stops(b + rest),
        token_laws::no_blank(rest),
        !text::starts_with(b + rest, clause::star()),
{
    reveal_strlit(".*");
    let s = b + rest;
    if b.len() > 0 {
        assert(s[0] == b[0]);
    } else {
        assert(s =~= rest);
    }
    if text::starts_with(s, clause::star()) {
        assert(s.take(2)[0] == s[0]);
    }
}

/// The last of some specifiers.
proof fn lemma_many_last(s: Seq<char>, i: nat, n: nat, t: Seq<char>, b: Seq<char>, rest: Seq<char>)
    requires
        clause::clause_len(text::after(s, i)) == Some(n),
        token_laws::is_blanks(b),
        marker_text::at(s, i + n, b + rest),
        ends_clauses(rest),
    ensures
        requirement_grammar::read_many(s, i, t) == Ok::<(Seq<char>, nat), SyntaxError>(
            (t + requirement_grammar::token_text(s, i, n), i + n + b.len()),
        ),
        marker_text::at(s, i + n + b.len(), rest),
{
    reveal(requirement_grammar::read_many);
    lemma_stops(b, rest);
    token_laws::lemma_blanks(s, i + n, b, rest);
}

/// A specifier before a comma.
proof fn lemma_many_next(
    s: Seq<char>,
    i: nat,
    n: nat,
    t: Seq<char>,
    b: Seq<char>,
    a: Seq<char>,
    next: Seq<char>,
)
    requires
        clause::clause_len(text::after(s, i)) == Some(n),
        token_laws::is_blanks(b),
        token_laws::is_blanks(a),
        marker_text::at(s, i + n, b + (seq![','] + (a + next))),
        token_laws::no_blank(next),
        clause::clause_len(next) is Some,
    ensures
        ({
            let k = i + n + b.len() + 1 + a.len();
            &&& requirement_grammar::read_many(s, i, t) == requirement_grammar::read_many(
                s,
                k,
                t + requirement_grammar::token_text(s, i, n) + ","@,
            )
            &&& marker_text::at(s, k, next)
        }),
{
    reveal(requirement_grammar::read_many);
    let comma = seq![','] + (a + next);
    assert(comma[0] == ',');
    lemma_stops(b, comma);
    token_laws::lemma_blanks(s, i + n, b, comma);
    let q = i + n + b.len();
    marker_text::lemma_at(s, q, seq![','], a + next);
    token_laws::lemma_blanks(s, q + 1, a, next);
}

#[verifier::rlimit(30)]
proof fn lemma_many(s: Seq<char>, i: nat, t: Seq<char>, l: Seq<SaidClause>, rest: Seq<char>)
    requires
        l.len() > 0,
        well_said(l),
        l[0].before.len() == 0,
        ends_clauses(rest),
        marker_text::at(s, i, said_clauses(l) + rest),
    ensures
        requirement_grammar::read_many(s, i, t) == Ok::<(Seq<char>, nat), SyntaxError>(
            (t + joined(l), i + said_clauses(l).len()),
        ),
        marker_text::at(s, i + said_clauses(l).len(), rest),
    decreases l.len(),
{
    let c = l[0];
    assert(is_clause(l[0]));
    let u = said_clause(c);
    if l.len() == 1 {
        let follow = c.behind + rest;
        assert(said_clauses(l) + rest =~= u + follow);
        lemma_stops(c.behind, rest);
        lemma_clause_len(c, follow);
        marker_text::lemma_at(s, i, u, follow);
        lemma_many_last(s, i, u.len(), t, c.behind, rest);
    } else {
        let n = l.skip(1);
        let m = without_first_blanks(n);
        lemma_without_first_blanks(l);
        let next = said_clauses(m) + rest;
        let comma = seq![','] + (n[0].before + next);
        let follow = c.behind + comma;
        assert(said_clauses(l) + rest =~= u + follow);
        assert(comma[0] == ',');
        lemma_stops(c.behind, comma);
        lemma_clause_len(c, follow);
        marker_text::lemma_at(s, i, u, follow);
        lemma_clauses_head(m, rest);
        lemma_clauses_len(m, rest);
        lemma_many_next(s, i, u.len(), t, c.behind, n[0].before, next);
        let k = i + u.len() + c.behind.len() + 1 + n[0].before.len();
        lemma_many(s, k, t + u + ","@, m, rest);
        assert(t + u + ","@ + joined(m) =~= t + joined(l));
    }
}

/// Specifiers without the blanks before the first of them.
spec fn without_first_blanks(n: Seq<SaidClause>) -> Seq<SaidClause> {
    n.update(0, SaidClause { before: Seq::empty(), ..n[0] })
}

proof fn lemma_without_first_blanks(l: Seq<SaidClause>)
    requires
        l.len() > 1,
        well_said(l),
    ensures
        ({
            let n = l.skip(1);
            let m = without_first_blanks(n);
            &&& m.len() == n.len()
            &&& m[0].before.len() == 0
            &&& well_said(m)
            &&& is_clause(m[0])
            &&& token_laws::is_blanks(n[0].before)
            &&& said_clauses(n) == n[0].before + said_clauses(m)
            &&& joined(m) == joined(n)
        }),
{
    let n = l.skip(1);
    let m = without_first_blanks(n);
    assert(n[0] == l[1]);
    assert(is_clause(l[1]));
    assert(m.skip(1) =~= n.skip(1));
    assert(is_clause(m[0]));
    assert forall|k: int| 0 <= k < m.len() implies is_clause(#[trigger] m[k]) by {
        if k > 0 {
            assert(m[k] == l[k + 1]);
        }
    }
    lemma_said_before(n, m);
}

proof fn lemma_said_before(n: Seq<SaidClause>, m: Seq<SaidClause>)
    requires
        n.len() > 0,
        m.len() == n.len(),
        m.skip(1) == n.skip(1),
        m[0] == (SaidClause { before: Seq::empty(), ..n[0] }),
    ensures
        said_clauses(n) == n[0].before + said_clauses(m),
        joined(m) == joined(n),
{
    assert(said_clause(m[0]) == said_clause(n[0]));
    assert(said_clauses(n) =~= n[0].before + said_clauses(m));
}

proof fn lemma_clauses_head(l: Seq<SaidClause>, rest: Seq<char>)
    requires
        l.len() > 0,
        is_clause(l[0]),
        l[0].before.len() == 0,
    ensures
        token_laws::no_blank(said_clauses(l) + rest),
        said_clauses(l).len() > 0,
        is_mark(said_clauses(l)),
        said_clauses(l)[0] != '(' && said_clauses(l)[0] != '@' && said_clauses(l)[0] != '[',
{
    let u = said_clause(l[0]);
    lemma_clause_head(l[0]);
    assert(said_clauses(l)[0] == u[0]);
    assert((said_clauses(l) + rest)[0] == u[0]);
}

/// What follows the first of some specifiers.
spec fn past_first(l: Seq<SaidClause>, rest: Seq<char>) -> Seq<char> {
    if l.len() == 1 {
        rest
    } else {
        seq![','] + (said_clauses(l.skip(1)) + rest)
    }
}

#[verifier::rlimit(30)]
proof fn lemma_clauses_len(l: Seq<SaidClause>, rest: Seq<char>)
    requires
        l.len() > 0,
        is_clause(l[0]),
        l[0].before.len() == 0,
        ends_clauses(rest),
    ensures
        clause::clause_len(said_clauses(l) + rest) == Some(said_clause(l[0]).len()),
{
    let c = l[0];
    let follow = past_first(l, rest);
    if l.len() > 1 {
        assert(follow[0] == ',');
    }
    lemma_stops(c.behind, follow);
    lemma_clause_len(c, c.behind + follow);
    assert(said_clauses(l) + rest =~= said_clause(c) + (c.behind + follow));
}

proof fn lemma_joined(l: Seq<SaidClause>)
    requires
        well_said(l),
    ensures
        specifier_set::read_set(joined(l)) == Ok::<Seq<SpecifierSpec>, Seq<char>>(clauses_of(l)),
    decreases l.len(),
{
    let none = Seq::<char>::empty();
    if l.len() == 0 {
        admission_laws::law_read_one(none);
        assert(joined(l) =~= none);
        assert(clauses_of(l) =~= Seq::empty());
    } else {
        let c = l[0];
        assert(is_clause(l[0]));
        lemma_clause_read(c);
        lemma_clause_head(c);
        let u = said_clause(c);
        admission_laws::law_read_one(u);
        assert(!text::in_class(Class::Space, u[0]));
        let x = SpecifierSpec { operator: c.operator, version: c.version, prereleases: None };
        if l.len() == 1 {
            assert(clauses_of(l) =~= seq![x]);
        } else {
            let n = l.skip(1);
            assert forall|k: int| 0 <= k < n.len() implies is_clause(#[trigger] n[k]) by {
                assert(n[k] == l[k + 1]);
            }
            lemma_joined(n);
            admission_laws::law_read_sets(u, joined(n));
            assert(clauses_of(l) =~= seq![x] + clauses_of(n));
        }
    }
}

// --- What follows the extras. ---

/// What follows the extras of a requirement as it is written.
pub enum SaidDetails {
    /// Specifiers. They may be in parentheses with blanks behind the opening and the closing one.
    Versions(Option<(Seq<char>, Seq<char>)>, Seq<SaidClause>),
    /// Blanks, an address, and blanks behind it.
    Address(Seq<char>, Seq<char>, Seq<char>),
}

/// The text of what follows the extras.
pub open spec fn said_details(d: SaidDetails) -> Seq<char> {
    match d {
        SaidDetails::Versions(None, l) => said_clauses(l),
        SaidDetails::Versions(Some((a, b)), l) => seq!['('] + (a + (said_clauses(l) + (seq![')']
            + b))),
        SaidDetails::Address(a, url, b) => seq!['@'] + (a + (url + b)),
    }
}

/// Whether what follows the extras is well written. Blanks stand between an address and a marker.
pub open spec fn well_said_details(d: SaidDetails, marker: bool) -> bool {
    match d {
        SaidDetails::Versions(parentheses, l) => {
            &&& well_said(l)
            &&& l.len() > 0 ==> l[0].before.len() == 0
            &&& parentheses matches Some((a, b)) ==> token_laws::is_blanks(a)
                && token_laws::is_blanks(b)
        },
        SaidDetails::Address(a, url, b) => {
            &&& token_laws::is_blanks(a)
            &&& token_laws::is_blanks(b)
            &&& marker ==> b.len() > 0
            &&& url.len() > 0
            &&& forall|i: int| 0 <= i < url.len() ==> #[trigger] url[i] != ' ' && url[i] != '\t'
        },
    }
}

/// A marker behind a semicolon as it is written.
pub open spec fn said_marker(m: Option<(Seq<token_laws::Written>, Seq<bool>)>) -> Seq<char> {
    match m {
        Some((l, ors)) => seq![';'] + token_laws::flat(l, ors),
        None => Seq::empty(),
    }
}

/// What a marker says as it is written.
pub open spec fn marker_of(m: Option<(Seq<token_laws::Written>, Seq<bool>)>) -> Option<Seq<Tree>> {
    match m {
        Some((l, ors)) => Some(token_laws::flat_trees(l, ors)),
        None => None,
    }
}

/// What follows the extras, as it is read.
pub open spec fn details_of(
    d: SaidDetails,
    m: Option<(Seq<token_laws::Written>, Seq<bool>)>,
) -> Details {
    match d {
        SaidDetails::Versions(_, l) => Details {
            url: Seq::empty(),
            specifier: joined(l),
            marker: marker_of(m),
        },
        SaidDetails::Address(_, url, _) => Details {
            url,
            specifier: Seq::empty(),
            marker: marker_of(m),
        },
    }
}

/// What may follow a requirement that is read up to there: nothing, or behind a marker what does
/// not go on with it.
spec fn ends_marker(
    m: Option<(Seq<token_laws::Written>, Seq<bool>)>,
    rest: Seq<char>,
) -> bool {
    match m {
        Some((l, ors)) => token_laws::well_flat(l, ors) && token_laws::ends_flat(l, rest),
        None => rest.len() == 0,
    }
}

proof fn lemma_marker_tail(
    s: Seq<char>,
    i: nat,
    m: Option<(Seq<token_laws::Written>, Seq<bool>)>,
    from: nat,
    expected: Seq<char>,
    rest: Seq<char>,
)
    requires
        m is Some,
        ends_marker(m, rest),
        marker_text::at(s, i, said_marker(m) + rest),
    ensures
        requirement_grammar::read_tail(s, i, from, expected) == Ok::<
            (Seq<Tree>, nat),
            SyntaxError,
        >((marker_of(m).unwrap(), i + said_marker(m).len())),
        marker_text::at(s, i + said_marker(m).len(), rest),
{
    reveal(requirement_grammar::read_tail);
    let (l, ors) = m.unwrap();
    let f = token_laws::flat(l, ors);
    let none = Seq::<char>::empty();
    assert(said_marker(m) + rest =~= seq![';'] + (f + rest));
    marker_text::lemma_at(s, i, seq![';'], f + rest);
    token_laws::lemma_flat_at(s, i + 1, l, ors, rest);
    assert(none + rest =~= rest);
    token_laws::lemma_blanks(s, i + 1 + f.len(), none, rest);
}

proof fn lemma_no_clause(s: Seq<char>, i: nat, t: Seq<char>, rest: Seq<char>)
    requires
        marker_text::at(s, i, rest),
        ends_clauses(rest),
    ensures
        requirement_grammar::read_many(s, i, t) == Ok::<(Seq<char>, nat), SyntaxError>((t, i)),
{
    reveal(requirement_grammar::read_many);
    clause::lemma_spellings();
    if let Some(op) = clause::operator_at(rest) {
        assert(text::starts_with(rest, op.spelling()));
        assert(rest.take(op.spelling().len() as int)[0] == rest[0]);
    }
}

/// Specifiers, or none, behind blanks.
proof fn lemma_any(s: Seq<char>, i: nat, a: Seq<char>, l: Seq<SaidClause>, rest: Seq<char>)
    requires
        well_said(l),
        l.len() > 0 ==> l[0].before.len() == 0,
        token_laws::is_blanks(a),
        ends_clauses(rest),
        marker_text::at(s, i, a + (said_clauses(l) + rest)),
    ensures
        ({
            let k = i + a.len() + said_clauses(l).len();
            &&& requirement_grammar::read_many(s, marker_grammar::blank(s, i), Seq::empty()) == Ok::<
                (Seq<char>, nat),
                SyntaxError,
            >((joined(l), k))
            &&& marker_text::at(s, k, rest)
            &&& marker_grammar::blank(s, k) == k
        }),
{
    let none = Seq::<char>::empty();
    let r = said_clauses(l) + rest;
    if l.len() > 0 {
        assert(is_clause(l[0]));
        lemma_clauses_head(l, rest);
    } else {
        assert(r =~= rest);
    }
    token_laws::lemma_blanks(s, i, a, r);
    let j = i + a.len();
    if l.len() > 0 {
        lemma_many(s, j, none, l, rest);
    } else {
        lemma_no_clause(s, j, none, rest);
    }
    let k = j + said_clauses(l).len();
    assert(none + rest =~= rest);
    token_laws::lemma_blanks(s, k, none, rest);
    assert(none + joined(l) =~= joined(l));
}

proof fn lemma_bare_versions(s: Seq<char>, i: nat, l: Seq<SaidClause>, rest: Seq<char>)
    requires
        well_said(l),
        l.len() > 0 ==> l[0].before.len() == 0,
        rest.len() > 0 ==> rest[0] == ';',
        marker_text::at(s, i, said_clauses(l) + rest),
    ensures
        ({
            let end = i + said_clauses(l).len();
            &&& requirement_grammar::read_specifier(s, i) == Ok::<(Seq<char>, nat), SyntaxError>(
                (joined(l), end),
            )
            &&& marker_grammar::blank(s, end) == end
            &&& marker_text::at(s, end, rest)
            &&& marker_grammar::token(s, i, Rule::At) is None
        }),
{
    reveal(requirement_grammar::read_specifier);
    let none = Seq::<char>::empty();
    let r = said_clauses(l) + rest;
    if l.len() > 0 {
        assert(is_clause(l[0]));
        lemma_clauses_head(l, rest);
        assert(r[0] == said_clauses(l)[0]);
    } else {
        assert(r =~= rest);
    }
    assert(none + r =~= r);
    lemma_any(s, i, none, l, rest);
}

proof fn lemma_enclosed_versions(
    s: Seq<char>,
    i: nat,
    a: Seq<char>,
    l: Seq<SaidClause>,
    b: Seq<char>,
    rest: Seq<char>,
)
    requires
        well_said(l),
        l.len() > 0 ==> l[0].before.len() == 0,
        token_laws::is_blanks(a),
        token_laws::is_blanks(b),
        rest.len() > 0 ==> rest[0] == ';',
        marker_text::at(s, i, seq!['('] + (a + (said_clauses(l) + (seq![')'] + (b + rest))))),
    ensures
        ({
            let k = i + 1 + a.len() + said_clauses(l).len() + 1;
            &&& requirement_grammar::read_specifier(s, i) == Ok::<(Seq<char>, nat), SyntaxError>(
                (joined(l), k),
            )
            &&& marker_grammar::blank(s, k) == k + b.len()
            &&& marker_text::at(s, k + b.len(), rest)
            &&& marker_grammar::token(s, i, Rule::At) is None
        }),
{
    reveal(requirement_grammar::read_specifier);
    let close = seq![')'] + (b + rest);
    assert(close[0] == ')');
    let r = a + (said_clauses(l) + close);
    assert((seq!['('] + r)[0] == '(');
    marker_text::lemma_at(s, i, seq!['('], r);
    lemma_any(s, i + 1, a, l, close);
    let k = i + 1 + a.len() + said_clauses(l).len();
    marker_text::lemma_at(s, k, seq![')'], b + rest);
    token_laws::lemma_blanks(s, k + 1, b, rest);
}

proof fn lemma_versions(
    s: Seq<char>,
    i: nat,
    parentheses: Option<(Seq<char>, Seq<char>)>,
    l: Seq<SaidClause>,
    rest: Seq<char>,
)
    requires
        well_said_details(SaidDetails::Versions(parentheses, l), false),
        rest.len() > 0 ==> rest[0] == ';',
        marker_text::at(s, i, said_details(SaidDetails::Versions(parentheses, l)) + rest),
    ensures
        ({
            let end = i + said_details(SaidDetails::Versions(parentheses, l)).len();
            &&& requirement_grammar::read_specifier(s, i) matches Ok((t, j)) && t == joined(l)
                && marker_grammar::blank(s, j) == end
            &&& marker_text::at(s, end, rest)
            &&& marker_grammar::token(s, i, Rule::At) is None
        }),
{
    match parentheses {
        None => {
            lemma_bare_versions(s, i, l, rest);
        },
        Some((a, b)) => {
            assert(said_details(SaidDetails::Versions(parentheses, l)) + rest =~= seq!['('] + (a + (
            said_clauses(l) + (seq![')'] + (b + rest)))));
            lemma_enclosed_versions(s, i, a, l, b, rest);
        },
    }
}

#[verifier::rlimit(30)]
proof fn lemma_details(
    s: Seq<char>,
    i: nat,
    d: SaidDetails,
    m: Option<(Seq<token_laws::Written>, Seq<bool>)>,
    rest: Seq<char>,
)
    requires
        well_said_details(d, m is Some),
        ends_marker(m, rest),
        marker_text::at(s, i, said_details(d) + (said_marker(m) + rest)),
    ensures
        ({
            let end = i + said_details(d).len() + said_marker(m).len();
            &&& requirement_grammar::read_details(s, i) == Ok::<(Details, nat), SyntaxError>(
                (details_of(d, m), end),
            )
            &&& marker_text::at(s, end, rest)
        }),
{
    reveal(requirement_grammar::read_details);
    match d {
        SaidDetails::Versions(parentheses, l) => {
            let tail = said_marker(m) + rest;
            if m is Some {
                assert(tail[0] == ';');
            } else {
                assert(tail =~= Seq::<char>::empty());
            }
            lemma_versions(s, i, parentheses, l, tail);
            let end = i + said_details(d).len();
            if m is Some {
                lemma_marker_tail(
                    s,
                    end,
                    m,
                    i,
                    requirement_grammar::expected_after(joined(l)),
                    rest,
                );
            } else {
                assert(end == s.len());
                assert(tail =~= rest);
            }
        },
        SaidDetails::Address(a, url, b) => {
            lemma_address(s, i, a, url, b, m, rest);
        },
    }
}

#[verifier::rlimit(30)]
proof fn lemma_address(
    s: Seq<char>,
    i: nat,
    a: Seq<char>,
    url: Seq<char>,
    b: Seq<char>,
    m: Option<(Seq<token_laws::Written>, Seq<bool>)>,
    rest: Seq<char>,
)
    requires
        well_said_details(SaidDetails::Address(a, url, b), m is Some),
        ends_marker(m, rest),
        marker_text::at(
            s,
            i,
            said_details(SaidDetails::Address(a, url, b)) + (said_marker(m) + rest),
        ),
    ensures
        ({
            let d = SaidDetails::Address(a, url, b);
            let end = i + said_details(d).len() + said_marker(m).len();
            &&& marker_grammar::token(s, i, Rule::At) is Some
            &&& requirement_grammar::read_url(s, marker_grammar::blank(s, i + 1)) == Ok::<
                (Details, nat),
                SyntaxError,
            >((details_of(d, m), end))
            &&& marker_text::at(s, end, rest)
        }),
{
    reveal(requirement_grammar::read_url);
    let tail = said_marker(m) + rest;
    let r3 = b + tail;
    let r2 = url + r3;
    let r1 = a + r2;
    assert(said_details(SaidDetails::Address(a, url, b)) + tail =~= seq!['@'] + r1);
    marker_text::lemma_at(s, i, seq!['@'], r1);
    assert(url[0] != ' ');
    assert(r2[0] == url[0]);
    token_laws::lemma_blanks(s, i + 1, a, r2);
    let j = i + 1 + a.len();
    assert(text::all_in(Class::Solid, url)) by {
        assert forall|k: int| 0 <= k < url.len() implies text::in_class(
            Class::Solid,
            #[trigger] url[k],
        ) by {}
    }
    if m is Some {
        assert(tail[0] == ';');
    } else {
        assert(tail =~= Seq::<char>::empty());
        assert(tail =~= rest);
    }
    if b.len() > 0 {
        assert(r3[0] == b[0]);
    } else {
        assert(r3 =~= tail);
    }
    text::lemma_run_concat(Class::Solid, url, r3);
    marker_text::lemma_at(s, j, url, r3);
    let k = j + url.len();
    token_laws::lemma_blanks(s, k, b, tail);
    assert(text::all_in(Class::Blank, b)) by {
        assert forall|n: int| 0 <= n < b.len() implies text::in_class(
            Class::Blank,
            #[trigger] b[n],
        ) by {}
    }
    text::lemma_run_concat(Class::Blank, b, tail);
    if m is Some {
        lemma_marker_tail(s, k + b.len(), m, j, "semicolon (after URL and whitespace)"@, rest);
    } else {
        assert(k + b.len() == s.len());
        if b.len() == 0 {
            assert(k == s.len());
        }
    }
}

// --- Requirements. ---

/// A requirement as it is written: blanks, a name, blanks, extras in brackets, blanks, specifiers
/// or an address, and a marker.
pub struct SaidRequirement {
    pub before: Seq<char>,
    pub name: Seq<char>,
    pub gap: Seq<char>,
    pub extras: Option<(Seq<char>, Seq<SaidExtra>)>,
    pub behind: Seq<char>,
    pub details: SaidDetails,
    pub marker: Option<(Seq<token_laws::Written>, Seq<bool>)>,
}

/// The text of a requirement as it is written.
pub open spec fn said(q: SaidRequirement) -> Seq<char> {
    q.before + (q.name + (q.gap + (bracketed(q.extras) + (q.behind + (said_details(q.details)
        + said_marker(q.marker))))))
}

/// Whether a requirement is well written.
pub open spec fn well_said_requirement(q: SaidRequirement) -> bool {
    &&& token_laws::is_blanks(q.before)
    &&& token_laws::is_blanks(q.gap)
    &&& token_laws::is_blanks(q.behind)
    &&& q.extras is None ==> q.behind.len() == 0
    &&& requirement_laws::is_name(q.name)
    &&& well_bracketed(q.extras)
    &&& well_said_details(q.details, q.marker is Some)
    &&& q.marker matches Some((l, ors)) ==> token_laws::well_flat(l, ors)
}

proof fn lemma_details_head(
    d: SaidDetails,
    m: Option<(Seq<token_laws::Written>, Seq<bool>)>,
)
    requires
        well_said_details(d, m is Some),
    ensures
        is_mark(said_details(d) + said_marker(m)),
        ({
            let r = said_details(d) + said_marker(m);
            r.len() > 0 ==> r[0] != '['
        }),
{
    let r = said_details(d) + said_marker(m);
    match d {
        SaidDetails::Versions(None, l) => {
            let rest = said_marker(m);
            if l.len() > 0 {
                assert(is_clause(l[0]));
                lemma_clauses_head(l, Seq::empty());
                assert(r[0] == said_clauses(l)[0]);
            } else {
                assert(r =~= rest);
            }
        },
        SaidDetails::Versions(Some(_), _) => {
            assert(r[0] == '(');
        },
        SaidDetails::Address(_, _, _) => {
            assert(r[0] == '@');
        },
    }
}

/// What follows the name of a requirement, and what follows that.
spec fn past_name(q: SaidRequirement, rest: Seq<char>) -> Seq<char> {
    bracketed(q.extras) + (q.behind + (said_details(q.details) + (said_marker(q.marker) + rest)))
}

proof fn lemma_details_rest(
    d: SaidDetails,
    m: Option<(Seq<token_laws::Written>, Seq<bool>)>,
    rest: Seq<char>,
)
    requires
        well_said_details(d, m is Some),
        ends_marker(m, rest),
    ensures
        ({
            let r = said_details(d) + (said_marker(m) + rest);
            is_mark(r) && (r.len() > 0 ==> r[0] != '[')
        }),
{
    lemma_details_head(d, m);
    let r = said_details(d) + said_marker(m);
    let t = said_details(d) + (said_marker(m) + rest);
    assert(t =~= r + rest);
    if r.len() > 0 {
        assert(t[0] == r[0]);
    } else {
        assert(t =~= rest);
        assert(m is None);
    }
}

proof fn lemma_past_name(q: SaidRequirement, rest: Seq<char>)
    requires
        well_said_requirement(q),
        ends_marker(q.marker, rest),
    ensures
        is_mark(past_name(q, rest)),
{
    lemma_details_rest(q.details, q.marker, rest);
    match q.extras {
        Some(_) => {
            assert(past_name(q, rest)[0] == '[');
        },
        None => {
            assert(past_name(q, rest) =~= said_details(q.details) + (said_marker(q.marker) + rest));
        },
    }
}

#[verifier::rlimit(30)]
proof fn lemma_body(s: Seq<char>, i: nat, q: SaidRequirement, rest: Seq<char>)
    requires
        well_said_requirement(q),
        ends_marker(q.marker, rest),
        marker_text::at(s, i, past_name(q, rest)),
    ensures
        ({
            let k = i + bracketed(q.extras).len();
            let end = k + q.behind.len() + said_details(q.details).len() + said_marker(
                q.marker,
            ).len();
            &&& requirement_grammar::read_extras(s, i) == Ok::<(Seq<Seq<char>>, nat), SyntaxError>(
                (bracketed_names(q.extras), k),
            )
            &&& requirement_grammar::read_details(s, marker_grammar::blank(s, k)) == Ok::<
                (Details, nat),
                SyntaxError,
            >((details_of(q.details, q.marker), end))
            &&& marker_text::at(s, end, rest)
        }),
{
    let r4 = said_details(q.details) + (said_marker(q.marker) + rest);
    let r3 = q.behind + r4;
    lemma_details_rest(q.details, q.marker, rest);
    if q.behind.len() > 0 {
        assert(r3[0] == q.behind[0]);
    } else {
        assert(r3 =~= r4);
    }
    lemma_bracketed(s, i, q.extras, r3);
    let k = i + bracketed(q.extras).len();
    token_laws::lemma_blanks(s, k, q.behind, r4);
    lemma_details(s, k + q.behind.len(), q.details, q.marker, rest);
}

/// A requirement begins with its name.
#[verifier::rlimit(30)]
proof fn lemma_start(
    s: Seq<char>,
    before: Seq<char>,
    name: Seq<char>,
    gap: Seq<char>,
    rest: Seq<char>,
)
    requires
        token_laws::is_blanks(before),
        token_laws::is_blanks(gap),
        requirement_laws::is_name(name),
        is_mark(rest),
        s == before + (name + (gap + rest)),
    ensures
        ({
            let n = before.len() + name.len();
            &&& requirement_grammar::read_requirement(s) == match requirement_grammar::read_body(
                s,
                n,
            ) {
                Err(e) => Err(e),
                Ok((extras, details)) => Ok(Parts { name, extras, details }),
            }
            &&& marker_grammar::blank(s, n) == n + gap.len()
            &&& marker_text::at(s, n + gap.len(), rest)
        }),
{
    assert(text::after(s, 0) =~= s);
    lemma_name_head(name, gap + rest);
    token_laws::lemma_blanks(s, 0, before, name + (gap + rest));
    lemma_name_at(s, before.len(), name, gap, rest);
}

/// What follows the name is read, and has to end there.
proof fn lemma_finish(
    s: Seq<char>,
    n: nat,
    j: nat,
    extras: Seq<Seq<char>>,
    k: nat,
    details: Details,
    end: nat,
)
    requires
        marker_grammar::blank(s, n) == j,
        requirement_grammar::read_extras(s, j) == Ok::<(Seq<Seq<char>>, nat), SyntaxError>(
            (extras, k),
        ),
        requirement_grammar::read_details(s, marker_grammar::blank(s, k)) == Ok::<
            (Details, nat),
            SyntaxError,
        >((details, end)),
        end <= s.len(),
    ensures
        end == s.len() ==> requirement_grammar::read_body(s, n) == Ok::<
            (Seq<Seq<char>>, Details),
            SyntaxError,
        >((extras, details)),
        end < s.len() ==> requirement_grammar::read_body(s, n) is Err,
{
    reveal(requirement_grammar::read_body);
    assert(text::after(s, end).len() == s.len() - end);
}

#[verifier::rlimit(30)]
proof fn lemma_said(q: SaidRequirement, rest: Seq<char>)
    requires
        well_said_requirement(q),
        ends_marker(q.marker, rest),
    ensures
        rest.len() == 0 ==> requirement_grammar::read_requirement(said(q) + rest) == Ok::<
            Parts,
            SyntaxError,
        >(
            Parts {
                name: q.name,
                extras: bracketed_names(q.extras),
                details: details_of(q.details, q.marker),
            },
        ),
        rest.len() > 0 ==> requirement_grammar::read_requirement(said(q) + rest) is Err,
{
    let s = said(q) + rest;
    let tail = past_name(q, rest);
    lemma_past_name(q, rest);
    assert(s =~= q.before + (q.name + (q.gap + tail)));
    lemma_start(s, q.before, q.name, q.gap, tail);
    let n = q.before.len() + q.name.len();
    let j = n + q.gap.len();
    let k = j + bracketed(q.extras).len();
    lemma_body(s, j, q, rest);
    lemma_finish(
        s,
        n,
        j,
        bracketed_names(q.extras),
        k,
        details_of(q.details, q.marker),
        k + q.behind.len() + said_details(q.details).len() + said_marker(q.marker).len(),
    );
}

/// A requirement is read as its name, its extras in the order in which they are named, its
/// specifiers with commas between them or its address, and its marker, whatever blanks stand
/// between them. The specifiers are read as those that are written.
pub proof fn law_requirement(q: SaidRequirement)
    requires
        well_said_requirement(q),
    ensures
        requirement_grammar::read_requirement(said(q)) == Ok::<Parts, SyntaxError>(
            Parts {
                name: q.name,
                extras: bracketed_names(q.extras),
                details: details_of(q.details, q.marker),
            },
        ),
        q.details matches SaidDetails::Versions(_, l) ==> specifier_set::read_set(joined(l)) == Ok::<
            Seq<SpecifierSpec>,
            Seq<char>,
        >(clauses_of(l)),
{
    let none = Seq::<char>::empty();
    assert(said(q) + none =~= said(q));
    lemma_said(q, none);
    if let SaidDetails::Versions(_, l) = q.details {
        lemma_joined(l);
    }
}

/// With anything behind its marker that does not go on with it, a text is no requirement.
pub proof fn law_nothing_behind(q: SaidRequirement, rest: Seq<char>)
    requires
        well_said_requirement(q),
        q.marker matches Some((l, _)) && token_laws::ends_flat(l, rest),
        rest.len() > 0,
    ensures
        requirement_grammar::read_requirement(said(q) + rest) is Err,
        requirements::requirement_error(said(q) + rest) is Some,
{
    lemma_said(q, rest);
}

// --- What a requirement says. ---

/// Names: they begin with a letter or digit, end with a letter, digit or underscore, and hold
/// those, dots and dashes between.
pub proof fn law_name(t: Seq<char>)
    requires
        t.len() > 0,
        forall|i: int|
            0 <= i < t.len() ==> 'a' <= #[trigger] t[i] <= 'z' || 'A' <= t[i] <= 'Z' || '0' <= t[i]
                <= '9' || t[i] == '.' || t[i] == '-' || t[i] == '_',
        t[0] != '.' && t[0] != '-' && t[0] != '_',
        t.last() != '.' && t.last() != '-',
    ensures
        requirement_laws::is_name(t),
{
    assert forall|i: int| 0 <= i < t.len() implies text::in_class(Class::Name, #[trigger] t[i]) by {}
    let c = t[t.len() - 1];
    assert((c as u32) < 128);
}

/// The address of what follows the extras, if it has one.
pub open spec fn address_of(d: SaidDetails) -> Option<Seq<char>> {
    match d {
        SaidDetails::Versions(_, _) => None,
        SaidDetails::Address(_, url, _) => Some(url),
    }
}

/// The specifiers of what follows the extras.
pub open spec fn specifiers_of(d: SaidDetails) -> Seq<SpecifierSpec> {
    match d {
        SaidDetails::Versions(_, l) => clauses_of(l),
        SaidDetails::Address(_, _, _) => Seq::empty(),
    }
}

/// A requirement that is well written is one, and says its name, its extras in order and each
/// once, its specifiers or its address, and its marker with names of extras normalized.
pub proof fn law_says(q: SaidRequirement, r: RequirementSpec)
    requires
        well_said_requirement(q),
    ensures
        requirements::requirement_error(said(q)) is None,
        requirements::says(said(q), r) ==> {
            &&& r.name == q.name
            &&& text_set::ascending(r.extras)
            &&& forall|t: Seq<char>| #[trigger]
                r.extras.contains(t) <==> bracketed_names(q.extras).contains(t)
            &&& r.url == address_of(q.details)
            &&& r.specifier.specs == specifiers_of(q.details)
            &&& r.specifier.prereleases is None
            &&& match q.marker {
                Some((l, ors)) => r.marker == Some(
                    marker_grammar::normal_list(token_laws::flat_trees(l, ors)),
                ),
                None => r.marker is None,
            }
        },
{
    law_requirement(q);
    text_set::law_ordered(bracketed_names(q.extras));
    let none = Seq::<char>::empty();
    admission_laws::law_read_one(none);
}

/// Two requirements are equal where their names are the same in normalized form, their extras
/// are the same whatever their order, their sets of specifiers are equal, and their addresses and
/// the texts of their markers are the same.
pub proof fn law_same_requirement(a: RequirementSpec, b: RequirementSpec)
    ensures
        requirements::same_requirement(a, b) <==> {
            &&& names::canonical_name(a.name) == names::canonical_name(b.name)
            &&& forall|t: Seq<char>| #[trigger] a.extras.contains(t) <==> b.extras.contains(t)
            &&& specifier_set::same_set(a.specifier, b.specifier)
            &&& a.url == b.url
            &&& match (a.marker, b.marker) {
                (Some(l), Some(m)) => marker_grammar::list_text(l, true) == marker_grammar::list_text(
                    m,
                    true,
                ),
                (None, None) => true,
                _ => false,
            }
        },
        requirements::same_requirement(a, b) ==> requirements::same_requirement(b, a),
{
}

// --- How a requirement is written back. ---

/// The text of a requirement grows with its parts: the name alone; behind it the extras in
/// brackets, in order; then the specifiers; then `@` and the address; then a semicolon and the
/// marker, behind a space where there is an address.
pub proof fn law_write(q: RequirementSpec)
    ensures
        ({
            let text_of = |r: RequirementSpec| requirements::requirement_text(r);
            let no_marker = RequirementSpec { marker: None, ..q };
            let no_url = RequirementSpec { url: None, ..no_marker };
            let no_specs = RequirementSpec {
                specifier: SpecifierSetSpec { specs: Seq::empty(), prereleases: None },
                ..no_url
            };
            let alone = RequirementSpec { extras: Seq::empty(), ..no_specs };
            &&& text_of(alone) == q.name
            &&& text_of(no_specs) == if q.extras.len() == 0 {
                q.name
            } else {
                q.name + "["@ + text::join(text_set::ordered(q.extras), ","@) + "]"@
            }
            &&& text_of(no_url) == if q.specifier.specs.len() == 0 {
                text_of(no_specs)
            } else {
                text_of(no_specs) + specifier_set::set_text(q.specifier.specs)
            }
            &&& text_of(no_marker) == match q.url {
                Some(url) => text_of(no_url) + "@ "@ + url,
                None => text_of(no_url),
            }
            &&& text_of(q) == match q.marker {
                Some(m) => text_of(no_marker) + (if q.url is Some {
                    " ; "@
                } else {
                    "; "@
                }) + marker_grammar::list_text(m, true),
                None => text_of(no_marker),
            }
        }),
{
    reveal_strlit(",");
    reveal_strlit(" ");
    reveal_strlit("; ");
    reveal_strlit(" ; ");
    let no_marker = RequirementSpec { marker: None, ..q };
    let no_url = RequirementSpec { url: None, ..no_marker };
    let no_specs = RequirementSpec {
        specifier: SpecifierSetSpec { specs: Seq::empty(), prereleases: None },
        ..no_url
    };
    let alone = RequirementSpec { extras: Seq::empty(), ..no_specs };
    assert(","@ =~= specifier_set::comma());
    text_set::law_ordered(q.extras);
    let none = Seq::<Seq<char>>::empty();
    assert(text_set::ordered(none) =~= none);
    if q.extras.len() == 0 {
        assert(q.extras =~= none);
    } else {
        assert(q.extras.contains(q.extras[0]));
        assert(text_set::ordered(q.extras).contains(q.extras[0]));
    }
    assert(requirements::requirement_text(alone) =~= q.name);
    assert(requirements::requirement_text(no_specs) =~= q.name + requirements::extras_text(
        text_set::ordered(q.extras),
    ));
    assert(requirements::requirement_text(no_url) =~= requirements::requirement_text(no_specs) + (
    if q.specifier.specs.len() == 0 {
        Seq::empty()
    } else {
        specifier_set::set_text(q.specifier.specs)
    }));
    assert(requirements::requirement_text(no_marker) =~= requirements::requirement_text(no_url)
        + requirements::url_text(q.url, false));
    if let Some(url) = q.url {
        assert(requirements::requirement_text(no_marker) =~= requirements::requirement_text(no_url)
            + "@ "@ + url);
    }
    if let Some(m) = q.marker {
        assert(" "@ + "; "@ =~= " ; "@);
        if q.url is Some {
            assert(requirements::requirement_text(q) =~= requirements::requirement_text(no_marker)
                + " ; "@ + marker_grammar::list_text(m, true));
        } else {
            assert(requirements::requirement_text(q) =~= requirements::requirement_text(no_marker)
                + "; "@ + marker_grammar::list_text(m, true));
        }
    } else {
        assert(requirements::requirement_text(q) =~= requirements::requirement_text(no_marker));
    }
}

} // verus!
