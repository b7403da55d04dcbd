//! Laws of requirements: what is read back from a requirement's text.

use vstd::prelude::*;

use crate::clause::{self, Operator};
use crate::evaluation::{self, Failure, Value};
use crate::marker_grammar::{self, Tree};
use crate::marker_laws;
use crate::marker_text;
use crate::outside;
use crate::requirement_grammar::{self, Details};
use crate::requirements::{self, RequirementSpec};
use crate::specifier_laws;
use crate::specifier_set::{self, SpecifierSetSpec};
use crate::specifiers::{self, SpecifierSpec};
use crate::stops;
use crate::text::{self, Class};
use crate::text_set;
use crate::tokenizer::{self, Rule, SyntaxError};

verus! {

// --- Names. ---

/// Whether a text is the name of a project or of an extra: letters, digits, dots, underscores
/// and dashes, that begins with a letter or digit and does not end with a dot or dash.
pub open spec fn is_name(t: Seq<char>) -> bool {
    &&& t.len() > 0
    &&& !text::is_separator(t[0])
    &&& text::all_in(Class::Name, t)
    &&& outside::is_word(t.last())
}

/// Whether a text does not go on with a name.
pub open spec fn ends_name(rest: Seq<char>) -> bool {
    rest.len() > 0 ==> !text::in_class(Class::Name, rest[0]) && !outside::is_word(rest[0])
}

/// A name is read back.
pub proof fn lemma_identifier(t: Seq<char>, rest: Seq<char>)
    requires
        is_name(t),
        ends_name(rest),
    ensures
        tokenizer::identifier_len(t + rest) == Some(t.len()),
{
    let s = t + rest;
    text::lemma_run_concat(Class::Name, t, rest);
    assert(text::in_class(Class::Name, t[0]));
    assert(s[0] == t[0]);
    assert(s[t.len() - 1] == t.last());
    if t.len() < s.len() {
        assert(s[t.len() as int] == rest[0]);
    }
    assert(tokenizer::is_boundary(s, t.len()));
}

/// Whether texts are names.
pub open spec fn all_names(l: Seq<Seq<char>>) -> bool {
    forall|i: int| 0 <= i < l.len() ==> is_name(#[trigger] l[i])
}

// --- Extras. ---

/// The text from an extra on.
spec fn tail_extras(l: Seq<Seq<char>>, k: int) -> Seq<char> {
    if k < l.len() {
        ","@ + text::join(l.skip(k), specifier_set::comma())
    } else {
        Seq::empty()
    }
}

/// The rest of a list of extras is read back.
proof fn lemma_more_extras(s: Seq<char>, i: nat, l: Seq<Seq<char>>, k: int, rest: Seq<char>)
    requires
        all_names(l),
        0 < k <= l.len(),
        marker_text::at(s, i, tail_extras(l, k) + ("]"@ + rest)),
    ensures
        requirement_grammar::read_more_extras(s, i, l.take(k)) == Ok::<
            (Seq<Seq<char>>, nat),
            SyntaxError,
        >((l, i + tail_extras(l, k).len())),
        marker_text::at(s, i + tail_extras(l, k).len(), "]"@ + rest),
    decreases l.len() - k,
{
    reveal(requirement_grammar::read_more_extras);
    reveal_strlit(",");
    reveal_strlit("]");
    let close = "]"@ + rest;
    marker_text::lemma_at(s, i, tail_extras(l, k), close);
    assert(text::after(s, i)[0] == s[i as int]);
    marker_text::lemma_not_blank(s, i);
    if k == l.len() {
        assert(tail_extras(l, k) + close =~= close);
        assert(l.take(k) =~= l);
    } else {
        let name = l[k];
        assert(is_name(name));
        let more = tail_extras(l, k + 1);
        let here = l.skip(k);
        assert(here[0] == name);
        assert(specifier_set::comma() =~= ","@);
        assert(tail_extras(l, k) =~= ","@ + (name + more)) by {
            if k + 1 < l.len() {
                assert(here.skip(1) =~= l.skip(k + 1));
                assert(text::join(here, specifier_set::comma()) == name + specifier_set::comma()
                    + text::join(l.skip(k + 1), specifier_set::comma()));
            } else {
                assert(here =~= seq![name]);
                assert(text::join(here, specifier_set::comma()) == name);
            }
        }
        let tail = more + close;
        assert(tail_extras(l, k) + close =~= ","@ + (name + tail));
        marker_text::lemma_at(s, i, ","@, name + tail);
        let j = i + 1;
        assert(text::after(s, j)[0] == name[0]);
        assert(text::after(s, j)[0] == s[j as int]);
        assert(text::in_class(Class::Name, name[0]));
        marker_text::lemma_not_blank(s, j);
        assert(ends_name(tail)) by {
            if k + 1 < l.len() {
                assert(tail[0] == ',');
            } else {
                assert(tail[0] == ']');
            }
        }
        lemma_identifier(name, tail);
        marker_text::lemma_at(s, j, name, tail);
        lemma_more_extras(s, j + name.len(), l, k + 1, rest);
        assert(l.take(k).push(name) =~= l.take(k + 1));
    }
}

/// Extras are read back.
proof fn lemma_extras(s: Seq<char>, i: nat, l: Seq<Seq<char>>, rest: Seq<char>)
    requires
        all_names(l),
        marker_text::at(s, i, requirements::extras_text(l) + rest),
        rest.len() > 0 ==> rest[0] != '[',
    ensures
        requirement_grammar::read_extras(s, i) == Ok::<(Seq<Seq<char>>, nat), SyntaxError>(
            (l, i + requirements::extras_text(l).len()),
        ),
        marker_text::at(s, i + requirements::extras_text(l).len(), rest),
{
    reveal(requirement_grammar::read_extras);
    reveal(requirement_grammar::read_extras_list);
    reveal_strlit("[");
    reveal_strlit("]");
    reveal_strlit(",");
    let t = requirements::extras_text(l);
    marker_text::lemma_at(s, i, t, rest);
    if l.len() == 0 {
        assert(t + rest =~= rest);
        assert(l =~= Seq::empty());
    } else {
        let name = l[0];
        assert(is_name(name));
        assert(specifier_set::comma() =~= ","@);
        let more = tail_extras(l, 1);
        let close = "]"@ + rest;
        assert(t =~= "["@ + (name + more) + "]"@) by {
            if l.len() > 1 {
                assert(text::join(l, specifier_set::comma()) == name + specifier_set::comma()
                    + text::join(l.skip(1), specifier_set::comma()));
            }
        }
        assert(t + rest =~= "["@ + (name + (more + close)));
        marker_text::lemma_at(s, i, "["@, name + (more + close));
        let j = i + 1;
        assert(text::after(s, j)[0] == s[j as int]);
        assert(text::after(s, j)[0] == name[0]);
        assert(text::in_class(Class::Name, name[0]));
        marker_text::lemma_not_blank(s, j);
        assert(ends_name(more + close)) by {
            if l.len() > 1 {
                assert((more + close)[0] == ',');
            } else {
                assert((more + close)[0] == ']');
            }
        }
        lemma_identifier(name, more + close);
        marker_text::lemma_at(s, j, name, more + close);
        assert(l.take(1) =~= seq![name]);
        lemma_more_extras(s, j + name.len(), l, 1, rest);
        let k = j + name.len() + more.len();
        assert(text::after(s, k)[0] == s[k as int]);
        marker_text::lemma_not_blank(s, k);
        marker_text::lemma_at(s, k, "]"@, rest);
    }
}

// --- Version specifiers. ---

/// The text of a specifier holds no white space, no semicolon and no closing parenthesis.
proof fn lemma_plain(x: SpecifierSpec)
    requires
        specifiers::is_specifier(x),
    ensures
        text::all_in(Class::Plain, specifiers::clause_text(x)),
        clause::version_len(x.operator, x.version) == Some(x.version.len()),
        x.operator != Operator::Arbitrary ==> x.version.len() > 0 && x.version[0] != '=',
{
    let c = specifiers::clause_text(x);
    clause::lemma_clause_chars(c);
    clause::lemma_spellings();
    assert forall|i: int| 0 <= i < c.len() implies text::in_class(Class::Plain, #[trigger] c[i]) by {
        let o = x.operator.spelling();
        if i < o.len() {
            assert(c[i] == o[i]);
            assert(o.contains(o[i]));
            clause::lemma_spelling_chars(x.operator, o[i]);
        } else {
            assert(c[i] == x.version[i - o.len()]);
            assert(text::in_class(Class::Plain, x.version[i - o.len()]));
        }
    }
}

/// The text of specifiers from one on.
#[verifier::opaque]
spec fn tail_clauses(l: Seq<SpecifierSpec>, k: int) -> Seq<char> {
    text::join(specifier_set::clause_texts(l).skip(k), specifier_set::comma())
}

proof fn lemma_tail_clauses(l: Seq<SpecifierSpec>, k: int)
    requires
        0 <= k < l.len(),
    ensures
        tail_clauses(l, k) == specifiers::clause_text(l[k]) + (if k + 1 < l.len() {
            ","@ + tail_clauses(l, k + 1)
        } else {
            Seq::empty()
        }),
{
    reveal(tail_clauses);
    reveal_strlit(",");
    let ts = specifier_set::clause_texts(l).skip(k);
    assert(specifier_set::comma() =~= ","@);
    assert(ts[0] == specifiers::clause_text(l[k]));
    if k + 1 < l.len() {
        assert(ts.skip(1) =~= specifier_set::clause_texts(l).skip(k + 1));
        assert(tail_clauses(l, k) =~= ts[0] + (","@ + tail_clauses(l, k + 1)));
    } else {
        assert(ts =~= seq![ts[0]]);
        assert(tail_clauses(l, k) =~= ts[0] + Seq::<char>::empty());
    }
}

proof fn lemma_tail_plain(l: Seq<SpecifierSpec>, k: int)
    requires
        specifier_set::is_list(l),
        0 <= k < l.len(),
    ensures
        text::all_in(Class::Plain, tail_clauses(l, k)),
        tail_clauses(l, k).len() > 0,
    decreases l.len() - k,
{
    reveal_strlit(",");
    lemma_tail_clauses(l, k);
    assert(specifier_set::is_member(l[k]));
    let c = specifiers::clause_text(l[k]);
    lemma_plain(l[k]);
    clause::lemma_spellings();
    if k + 1 < l.len() {
        lemma_tail_plain(l, k + 1);
        let t = tail_clauses(l, k);
        let u = tail_clauses(l, k + 1);
        assert forall|i: int| 0 <= i < t.len() implies text::in_class(
            Class::Plain,
            #[trigger] t[i],
        ) by {
            if i < c.len() {
                assert(t[i] == c[i]);
            } else if i == c.len() {
                assert(t[i] == ',');
            } else {
                assert(t[i] == u[i - c.len() - 1]);
            }
        }
    } else {
        assert(tail_clauses(l, k) =~= c);
    }
}

/// An operator, and how much of what follows it is read as a version.
proof fn lemma_operator_token(op: Operator, v: Seq<char>, n: nat)
    requires
        op != Operator::Arbitrary ==> v.len() > 0 && v[0] != '=',
        v.len() > 0 ==> !text::is_space(v[0]),
        clause::version_len(op, v) == Some(n),
    ensures
        clause::clause_len(op.spelling() + v) == Some(op.spelling().len() + n),
{
    let o = op.spelling();
    let s = o + v;
    clause::lemma_operator_at(op, v);
    assert(text::after(s, o.len()) =~= v);
    assert(text::run(Class::Space, v) == 0);
    assert(text::after(v, 0) =~= v);
}

/// An `===` takes all that follows it up to a semicolon.
proof fn lemma_arbitrary_token(l: Seq<SpecifierSpec>, k: int, rest: Seq<char>)
    requires
        specifier_set::is_list(l),
        0 <= k < l.len(),
        l[k].operator == Operator::Arbitrary,
        rest.len() > 0 ==> rest[0] == ';',
    ensures
        clause::clause_len(tail_clauses(l, k) + rest) == Some(tail_clauses(l, k).len()),
{
    let x = l[k];
    let o = x.operator.spelling();
    let t = tail_clauses(l, k);
    lemma_tail_clauses(l, k);
    lemma_tail_plain(l, k);
    let body = t.skip(o.len() as int);
    assert(t =~= o + body) by {
        assert(specifiers::clause_text(x) == o + x.version);
    }
    assert forall|i: int| 0 <= i < body.len() implies text::in_class(
        Class::Plain,
        #[trigger] body[i],
    ) by {
        assert(body[i] == t[i + o.len()]);
    }
    text::lemma_run_concat(Class::Plain, body, rest);
    let v = body + rest;
    if v.len() > 0 {
        if body.len() > 0 {
            assert(v[0] == body[0]);
            assert(text::in_class(Class::Plain, body[0]));
        } else {
            assert(v[0] == rest[0]);
        }
    }
    lemma_operator_token(x.operator, v, body.len());
    assert(t + rest =~= o + v);
}

/// Another operator takes its version only.
proof fn lemma_version_token(x: SpecifierSpec, follow: Seq<char>)
    requires
        specifiers::is_specifier(x),
        x.operator != Operator::Arbitrary,
        stops::stops(follow),
    ensures
        clause::clause_len(specifiers::clause_text(x) + follow) == Some(
            specifiers::clause_text(x).len(),
        ),
{
    lemma_plain(x);
    clause::lemma_clause_chars(specifiers::clause_text(x));
    stops::lemma_version(x.operator, x.version, follow);
    let v = x.version + follow;
    assert(v[0] == x.version[0]);
    assert(text::in_class(Class::Plain, x.version[0]));
    lemma_operator_token(x.operator, v, x.version.len());
    assert(specifiers::clause_text(x) + follow =~= x.operator.spelling() + v);
}

/// How much of specifiers with commas between them is read as one token: the first of them, or
/// all of them where the first is an `===`.
#[verifier::rlimit(30)]
proof fn lemma_clause_token(l: Seq<SpecifierSpec>, k: int, rest: Seq<char>)
    requires
        specifier_set::is_list(l),
        0 <= k < l.len(),
        rest.len() > 0 ==> rest[0] == ';',
    ensures
        clause::clause_len(tail_clauses(l, k) + rest) == Some(
            if l[k].operator == Operator::Arbitrary {
                tail_clauses(l, k).len()
            } else {
                specifiers::clause_text(l[k]).len()
            },
        ),
{
    if l[k].operator == Operator::Arbitrary {
        lemma_arbitrary_token(l, k, rest);
    } else {
        let t = tail_clauses(l, k);
        let c = specifiers::clause_text(l[k]);
        lemma_tail_clauses(l, k);
        let follow = t.skip(c.len() as int) + rest;
        assert(stops::stops(follow)) by {
            reveal_strlit(",");
            if k + 1 < l.len() {
                assert(follow[0] == ',');
            } else {
                assert(t =~= c);
                assert(follow =~= rest);
            }
        }
        assert(specifier_set::is_member(l[k]));
        lemma_version_token(l[k], follow);
        assert(t + rest =~= c + follow);
    }
}

/// The last token of version specifiers.
proof fn lemma_many_last(s: Seq<char>, i: nat, n: nat, t: Seq<char>, rest: Seq<char>)
    requires
        clause::clause_len(text::after(s, i)) == Some(n),
        marker_text::at(s, i + n, rest),
        rest.len() > 0 ==> rest[0] == ';',
    ensures
        requirement_grammar::read_many(s, i, t) == Ok::<(Seq<char>, nat), SyntaxError>(
            (t + requirement_grammar::token_text(s, i, n), i + n),
        ),
{
    reveal(requirement_grammar::read_many);
    reveal_strlit(".*");
    let end = i + n;
    assert(!text::starts_with(rest, clause::star())) by {
        if text::starts_with(rest, clause::star()) {
            assert(rest.take(2)[0] == rest[0]);
        }
    }
    if rest.len() > 0 {
        assert(text::after(s, end)[0] == s[end as int]);
    }
    marker_text::lemma_not_blank(s, end);
}

/// A token of version specifiers before a comma.
proof fn lemma_many_next(s: Seq<char>, i: nat, n: nat, t: Seq<char>, next: Seq<char>)
    requires
        clause::clause_len(text::after(s, i)) == Some(n),
        marker_text::at(s, i + n, ","@ + next),
        next.len() > 0,
        next[0] != ' ' && next[0] != '\t',
        clause::clause_len(next) is Some,
    ensures
        requirement_grammar::read_many(s, i, t) == requirement_grammar::read_many(
            s,
            i + n + 1,
            t + requirement_grammar::token_text(s, i, n) + ","@,
        ),
        marker_text::at(s, i + n + 1, next),
{
    reveal(requirement_grammar::read_many);
    reveal_strlit(".*");
    reveal_strlit(",");
    let p = i + n;
    let follow = ","@ + next;
    assert(!text::starts_with(follow, clause::star())) by {
        if text::starts_with(follow, clause::star()) {
            assert(follow.take(2)[0] == follow[0]);
        }
    }
    assert(text::after(s, p)[0] == s[p as int]);
    marker_text::lemma_not_blank(s, p);
    marker_text::lemma_at(s, p, ","@, next);
    assert(text::after(s, p + 1)[0] == s[p as int + 1]);
    marker_text::lemma_not_blank(s, p + 1);
}

/// Version specifiers are read back.
#[verifier::rlimit(30)]
proof fn lemma_many(
    s: Seq<char>,
    i: nat,
    l: Seq<SpecifierSpec>,
    k: int,
    t: Seq<char>,
    rest: Seq<char>,
)
    requires
        specifier_set::is_list(l),
        0 <= k < l.len(),
        marker_text::at(s, i, tail_clauses(l, k) + rest),
        rest.len() > 0 ==> rest[0] == ';',
    ensures
        requirement_grammar::read_many(s, i, t) == Ok::<(Seq<char>, nat), SyntaxError>(
            (t + tail_clauses(l, k), i + tail_clauses(l, k).len()),
        ),
        marker_text::at(s, i + tail_clauses(l, k).len(), rest),
    decreases l.len() - k,
{
    let here = tail_clauses(l, k);
    marker_text::lemma_at(s, i, here, rest);
    lemma_clause_token(l, k, rest);
    lemma_tail_clauses(l, k);
    let c = specifiers::clause_text(l[k]);
    if l[k].operator == Operator::Arbitrary || k + 1 == l.len() {
        if k + 1 == l.len() {
            assert(here =~= c);
        }
        lemma_many_last(s, i, here.len(), t, rest);
        assert(requirement_grammar::token_text(s, i, here.len()) == here);
    } else {
        let next = tail_clauses(l, k + 1);
        let follow = ","@ + (next + rest);
        assert(here + rest =~= c + follow);
        marker_text::lemma_at(s, i, c, follow);
        lemma_tail_plain(l, k + 1);
        assert(text::in_class(Class::Plain, next[0]));
        assert((next + rest)[0] == next[0]);
        assert(requirement_grammar::token_text(s, i, c.len()) == c);
        lemma_clause_token(l, k + 1, rest);
        lemma_many_next(s, i, c.len(), t, next + rest);
        let p = i + c.len();
        lemma_many(s, p + 1, l, k + 1, t + c + ","@, rest);
        assert(t + c + ","@ + next =~= t + here);
        assert(","@.len() == 1) by {
            reveal_strlit(",");
        }
    }
}

// --- Markers. ---

/// The marker that is read back from the text of a marker.
pub open spec fn reread(marker: Option<Seq<Tree>>) -> Option<Seq<Tree>> {
    match marker {
        Some(m) => Some(marker_laws::list_parts(m, true)),
        None => None,
    }
}

/// Whether a marker is read back from its text as an equal one.
pub open spec fn is_reread(marker: Option<Seq<Tree>>) -> bool {
    marker matches Some(m) ==> marker_laws::is_marker(m, true) && marker_grammar::normal_list(m)
        == m
}

/// A marker after a semicolon is read back.
proof fn lemma_tail(s: Seq<char>, i: nat, m: Seq<Tree>, from: nat, expected: Seq<char>)
    requires
        marker_laws::is_marker(m, true),
        marker_text::at(s, i, requirements::marker_text(Some(m))),
    ensures
        requirement_grammar::read_tail(s, i, from, expected) == Ok::<
            (Seq<Tree>, nat),
            SyntaxError,
        >((marker_laws::list_parts(m, true), s.len())),
{
    reveal(requirement_grammar::read_tail);
    reveal_strlit("; ");
    let c = marker_laws::list_parts(m, true);
    let body = text::join(marker_grammar::texts(c), " "@);
    let none = Seq::<char>::empty();
    marker_laws::lemma_reread_parts(m);
    let t = requirements::marker_text(Some(m));
    let blank_body = seq![' '] + body;
    assert(t =~= seq![';'] + blank_body);
    marker_text::lemma_at(s, i, seq![';'], blank_body);
    assert(text::after(s, i)[0] == ';');
    let j = i + 1;
    marker_text::lemma_at(s, j, seq![' '], body);
    assert(text::after(s, j)[0] == s[j as int]);
    marker_text::lemma_body_start(c);
    assert(text::after(s, j + 1)[0] == s[j as int + 1]);
    marker_text::lemma_one_blank(s, j);
    assert(body + none =~= body);
    marker_text::lemma_read_marker(s, j, c, none);
    let end = j + 1 + body.len();
    assert(end == s.len()) by {
        assert(text::after(s, end).len() == 0);
    }
    marker_text::lemma_not_blank(s, end);
}

// --- What follows the extras. ---

/// An address is read back.
#[verifier::rlimit(30)]
proof fn lemma_url(s: Seq<char>, i: nat, url: Seq<char>, marker: Option<Seq<Tree>>)
    requires
        url.len() > 0,
        text::all_in(Class::Solid, url),
        is_reread(marker),
        marker_text::at(
            s,
            i,
            requirements::url_text(Some(url), marker is Some) + requirements::marker_text(marker),
        ),
    ensures
        requirement_grammar::read_details(s, i) == Ok::<(Details, nat), SyntaxError>(
            (Details { url, specifier: Seq::empty(), marker: reread(marker) }, s.len()),
        ),
{
    reveal(requirement_grammar::read_details);
    reveal(requirement_grammar::read_url);
    reveal_strlit("@ ");
    reveal_strlit(" ");
    reveal_strlit("; ");
    let tail = (if marker is Some {
        " "@
    } else {
        Seq::empty()
    }) + requirements::marker_text(marker);
    let t = requirements::url_text(Some(url), marker is Some) + requirements::marker_text(marker);
    let r1 = seq![' '] + (url + tail);
    assert(t =~= seq!['@'] + r1);
    marker_text::lemma_at(s, i, seq!['@'], r1);
    assert(text::after(s, i)[0] == '@');
    marker_text::lemma_at(s, i + 1, seq![' '], url + tail);
    assert(text::in_class(Class::Solid, url[0]));
    assert(text::after(s, i + 1)[0] == s[i as int + 1]);
    assert(text::after(s, i + 2)[0] == s[i as int + 2]);
    assert(text::after(s, i + 2)[0] == url[0]);
    marker_text::lemma_one_blank(s, i + 1);
    let j = i + 2;
    text::lemma_run_concat(Class::Solid, url, tail);
    marker_text::lemma_at(s, j, url, tail);
    let k = j + url.len();
    assert(requirement_grammar::token_text(s, j, url.len()) == url);
    match marker {
        None => {
            assert(tail =~= Seq::empty());
        },
        Some(m) => {
            let mt = requirements::marker_text(Some(m));
            assert(tail =~= " "@ + mt);
            marker_text::lemma_at(s, k, " "@, mt);
            assert(tail.skip(1) =~= mt);
            assert(mt[0] == ';');
            assert(text::run(Class::Blank, mt) == 0);
            assert(text::run(Class::Blank, tail) == 1);
            lemma_tail(s, k + 1, m, j, "semicolon (after URL and whitespace)"@);
        },
    }
}

/// The text of version specifiers; empty where there are none.
spec fn specs_text(l: Seq<SpecifierSpec>) -> Seq<char> {
    if l.len() == 0 {
        Seq::empty()
    } else {
        specifier_set::set_text(l)
    }
}

proof fn lemma_canonical_list(l: Seq<SpecifierSpec>)
    requires
        specifier_set::is_list(l),
        l.len() > 0,
    ensures
        specifier_set::is_list(specifier_set::canonical(l)),
        specifier_set::canonical(l).len() > 0,
        specs_text(l) == tail_clauses(specifier_set::canonical(l), 0),
{
    reveal(tail_clauses);
    let c = specifier_set::canonical(l);
    specifier_laws::law_canonical(l);
    assert forall|i: int| 0 <= i < c.len() implies specifier_set::is_member(#[trigger] c[i]) by {
        assert(l.contains(c[i]));
        let k = choose|k: int| 0 <= k < l.len() && l[k] == c[i];
        assert(specifier_set::is_member(l[k]));
    }
    assert(specifier_set::has_same(c, l[0]));
    assert(specifier_set::clause_texts(c).skip(0) =~= specifier_set::clause_texts(c));
}

/// An operator at the head of a text.
proof fn lemma_operator_char(op: Operator)
    ensures
        op.spelling().len() > 0,
        ({
            let c = op.spelling()[0];
            c == '=' || c == '!' || c == '~' || c == '<' || c == '>'
        }),
{
    clause::lemma_spellings();
}

/// The first character of version specifiers.
proof fn lemma_specs_start(l: Seq<SpecifierSpec>)
    requires
        specifier_set::is_list(l),
    ensures
        specs_text(l).len() > 0 ==> ({
            let c = specs_text(l)[0];
            c == '=' || c == '!' || c == '~' || c == '<' || c == '>'
        }),
        l.len() > 0 ==> specs_text(l).len() > 0,
{
    if l.len() > 0 {
        lemma_canonical_list(l);
        let c = specifier_set::canonical(l);
        lemma_tail_clauses(c, 0);
        lemma_operator_char(c[0].operator);
        assert(specs_text(l)[0] == c[0].operator.spelling()[0]);
    }
}

/// There is no specifier where there is no operator.
proof fn lemma_no_specifier(s: Seq<char>, i: nat, t: Seq<char>)
    requires
        i <= s.len(),
        i < s.len() ==> s[i as int] == ';',
    ensures
        requirement_grammar::read_many(s, i, t) == Ok::<(Seq<char>, nat), SyntaxError>((t, i)),
{
    reveal(requirement_grammar::read_many);
    clause::lemma_spellings();
    let u = text::after(s, i);
    if u.len() > 0 {
        assert(u[0] == s[i as int]);
    }
    if let Some(op) = clause::operator_at(u) {
        assert(text::starts_with(u, op.spelling()));
        assert(u.take(op.spelling().len() as int)[0] == u[0]);
        lemma_operator_char(op);
    }
}

/// Version specifiers are read back.
#[verifier::rlimit(30)]
proof fn lemma_specs(s: Seq<char>, i: nat, l: Seq<SpecifierSpec>, rest: Seq<char>)
    requires
        specifier_set::is_list(l),
        marker_text::at(s, i, specs_text(l) + rest),
        rest.len() > 0 ==> rest[0] == ';',
    ensures
        requirement_grammar::read_specifier(s, i) == Ok::<(Seq<char>, nat), SyntaxError>(
            (specs_text(l), i + specs_text(l).len()),
        ),
        marker_text::at(s, i + specs_text(l).len(), rest),
        marker_grammar::blank(s, i + specs_text(l).len()) == i + specs_text(l).len(),
{
    reveal(requirement_grammar::read_specifier);
    let none = Seq::<char>::empty();
    marker_text::lemma_at(s, i, specs_text(l), rest);
    lemma_specs_start(l);
    let u = text::after(s, i);
    if u.len() > 0 {
        assert(u[0] == s[i as int]);
    }
    marker_text::lemma_not_blank(s, i);
    let end = i + specs_text(l).len();
    if rest.len() > 0 {
        assert(text::after(s, end)[0] == s[end as int]);
    }
    marker_text::lemma_not_blank(s, end);
    if l.len() == 0 {
        assert(u =~= rest);
        lemma_no_specifier(s, i, none);
    } else {
        lemma_canonical_list(l);
        lemma_many(s, i, specifier_set::canonical(l), 0, none, rest);
        assert(none + specs_text(l) =~= specs_text(l));
    }
}

/// Version specifiers and a marker are read back.
#[verifier::rlimit(30)]
proof fn lemma_versions(s: Seq<char>, i: nat, l: Seq<SpecifierSpec>, marker: Option<Seq<Tree>>)
    requires
        specifier_set::is_list(l),
        is_reread(marker),
        marker_text::at(s, i, specs_text(l) + requirements::marker_text(marker)),
    ensures
        requirement_grammar::read_details(s, i) == Ok::<(Details, nat), SyntaxError>(
            (
                Details { url: Seq::empty(), specifier: specs_text(l), marker: reread(marker) },
                s.len(),
            ),
        ),
{
    reveal(requirement_grammar::read_details);
    reveal_strlit("; ");
    let mt = requirements::marker_text(marker);
    lemma_specs_start(l);
    let u = text::after(s, i);
    assert(marker_grammar::token(s, i, Rule::At) is None) by {
        if u.len() > 0 {
            if specs_text(l).len() > 0 {
                assert(u[0] == specs_text(l)[0]);
            } else {
                assert(u =~= mt);
            }
        }
    }
    lemma_specs(s, i, l, mt);
    let k = i + specs_text(l).len();
    match marker {
        None => {
            assert(text::after(s, k).len() == 0);
        },
        Some(m) => {
            lemma_tail(s, k, m, i, requirement_grammar::expected_after(specs_text(l)));
        },
    }
}

// --- Requirements. ---

/// Whether a requirement can be written: its names are names, its specifiers can stand between
/// commas, its address has no blanks, and its marker is read back from its text.
pub open spec fn is_requirement(q: RequirementSpec) -> bool {
    has_shape(q) && is_reread(q.marker)
}

/// Whether a requirement can be written, apart from its marker.
pub open spec fn has_shape(q: RequirementSpec) -> bool {
    &&& is_name(q.name)
    &&& all_names(q.extras)
    &&& specifier_set::is_list(q.specifier.specs)
    &&& q.url matches Some(t) ==> t.len() > 0 && text::all_in(Class::Solid, t)
        && q.specifier.specs.len() == 0
}

/// What follows the extras.
spec fn details_text(q: RequirementSpec) -> Seq<char> {
    specs_text(q.specifier.specs) + requirements::url_text(q.url, q.marker is Some)
        + requirements::marker_text(q.marker)
}

/// What is read back of what follows the extras.
spec fn details_of(q: RequirementSpec) -> Details {
    match q.url {
        Some(url) => Details { url, specifier: Seq::empty(), marker: reread(q.marker) },
        None => Details {
            url: Seq::empty(),
            specifier: specs_text(q.specifier.specs),
            marker: reread(q.marker),
        },
    }
}

proof fn lemma_details(s: Seq<char>, i: nat, q: RequirementSpec)
    requires
        is_requirement(q),
        marker_text::at(s, i, details_text(q)),
    ensures
        requirement_grammar::read_details(s, i) == Ok::<(Details, nat), SyntaxError>(
            (details_of(q), s.len()),
        ),
{
    match q.url {
        Some(url) => {
            assert(details_text(q) =~= requirements::url_text(q.url, q.marker is Some)
                + requirements::marker_text(q.marker));
            lemma_url(s, i, url, q.marker);
        },
        None => {
            assert(details_text(q) =~= specs_text(q.specifier.specs) + requirements::marker_text(
                q.marker,
            ));
            lemma_versions(s, i, q.specifier.specs, q.marker);
        },
    }
}

/// The first character of what follows the extras.
proof fn lemma_details_start(q: RequirementSpec)
    requires
        is_requirement(q),
    ensures
        details_text(q).len() > 0 ==> ({
            let c = details_text(q)[0];
            c == '=' || c == '!' || c == '~' || c == '<' || c == '>' || c == '@' || c == ';'
        }),
{
    reveal_strlit("@ ");
    reveal_strlit("; ");
    lemma_specs_start(q.specifier.specs);
    let d = details_text(q);
    let a = specs_text(q.specifier.specs);
    let b = requirements::url_text(q.url, q.marker is Some);
    let c = requirements::marker_text(q.marker);
    if a.len() > 0 {
        assert(d[0] == a[0]);
    } else if b.len() > 0 {
        assert(d[0] == b[0]);
    } else if c.len() > 0 {
        assert(d[0] == c[0]);
    }
}

/// What follows the name is read back.
#[verifier::rlimit(30)]
proof fn lemma_body(s: Seq<char>, n: nat, q: RequirementSpec)
    requires
        is_requirement(q),
        marker_text::at(s, n, requirements::extras_text(q.extras) + details_text(q)),
    ensures
        requirement_grammar::read_body(s, n) == Ok::<(Seq<Seq<char>>, Details), SyntaxError>(
            (q.extras, details_of(q)),
        ),
{
    reveal(requirement_grammar::read_body);
    let d = details_text(q);
    let e = requirements::extras_text(q.extras);
    lemma_details_start(q);
    lemma_body_char(q);
    if (e + d).len() > 0 {
        assert(text::after(s, n)[0] == s[n as int]);
    }
    marker_text::lemma_not_blank(s, n);
    lemma_extras(s, n, q.extras, d);
    let m = n + e.len();
    if d.len() > 0 {
        assert(text::after(s, m)[0] == s[m as int]);
    }
    marker_text::lemma_not_blank(s, m);
    lemma_details(s, m, q);
}

/// The first character of what follows the name.
proof fn lemma_body_char(q: RequirementSpec)
    requires
        is_requirement(q),
    ensures
        ({
            let r = requirements::extras_text(q.extras) + details_text(q);
            &&& ends_name(r)
            &&& r.len() > 0 ==> r[0] != ' ' && r[0] != '\t'
        }),
{
    reveal_strlit("[");
    let e = requirements::extras_text(q.extras);
    let d = details_text(q);
    let r = e + d;
    lemma_details_start(q);
    if r.len() > 0 {
        if e.len() > 0 {
            assert(r[0] == e[0]);
            assert(e[0] == '[');
        } else {
            assert(r[0] == d[0]);
        }
    }
}

/// The text of a requirement is read back.
#[verifier::rlimit(30)]
proof fn lemma_requirement(q: RequirementSpec)
    requires
        is_requirement(q),
        text_set::ascending(q.extras),
    ensures
        requirement_grammar::read_requirement(requirements::requirement_text(q)) == Ok::<
            requirement_grammar::Parts,
            SyntaxError,
        >(
            requirement_grammar::Parts {
                name: q.name,
                extras: q.extras,
                details: details_of(q),
            },
        ),
{
    let s = requirements::requirement_text(q);
    let rest = requirements::extras_text(q.extras) + details_text(q);
    text_set::law_ordered_again(q.extras);
    assert(s =~= q.name + rest);
    assert(text::after(s, 0) =~= s);
    assert(text::in_class(Class::Name, q.name[0]));
    assert(s[0] == q.name[0]);
    marker_text::lemma_not_blank(s, 0);
    lemma_body_char(q);
    lemma_identifier(q.name, rest);
    marker_text::lemma_at(s, 0, q.name, rest);
    lemma_body(s, q.name.len(), q);
}

// --- Writing a requirement. ---

proof fn lemma_specs_read(l: Seq<SpecifierSpec>)
    requires
        specifier_set::is_list(l),
    ensures
        specifier_set::read_set(specs_text(l)) == Ok::<Seq<SpecifierSpec>, Seq<char>>(
            specifier_set::canonical(l),
        ),
        specifier_set::same_set(
            SpecifierSetSpec { specs: l, prereleases: None },
            SpecifierSetSpec { specs: specifier_set::canonical(l), prereleases: None },
        ),
        specs_text(specifier_set::canonical(l)) == specs_text(l),
{
    let c = specifier_set::canonical(l);
    if l.len() == 0 {
        assert(l =~= Seq::empty());
        assert(c =~= Seq::empty());
        specifier_laws::law_empty_set(Seq::empty(), None);
    } else {
        specifier_laws::law_set_text(l);
        specifier_laws::law_canonical_again(l);
        lemma_canonical_list(l);
    }
}

proof fn lemma_ordered_names(l: Seq<Seq<char>>)
    requires
        all_names(l),
    ensures
        all_names(text_set::ordered(l)),
{
    let r = text_set::ordered(l);
    text_set::law_ordered(l);
    assert forall|j: int| 0 <= j < r.len() implies is_name(#[trigger] r[j]) by {
        assert(r.contains(r[j]));
        let m = choose|m: int| 0 <= m < l.len() && l[m] == r[j];
        assert(is_name(l[m]));
    }
}

/// What a marker says of an environment, if there is one.
pub open spec fn meaning(
    marker: Option<Seq<Tree>>,
    env: spec_fn(Seq<char>) -> Option<Value>,
) -> Option<Result<bool, Failure>> {
    match marker {
        Some(m) => Some(evaluation::eval_list(m, env)),
        None => None,
    }
}

/// Writing a requirement: its text is a requirement, and what it says is equal to the
/// requirement that was written, has the same text, and has a marker that says the same of
/// every environment.
#[verifier::rlimit(30)]
pub proof fn law_requirement_text(
    q: RequirementSpec,
    r: RequirementSpec,
    env: spec_fn(Seq<char>) -> Option<Value>,
)
    requires
        is_requirement(q),
    ensures
        requirements::requirement_error(requirements::requirement_text(q)) is None,
        requirements::says(requirements::requirement_text(q), r) ==> {
            &&& requirements::same_requirement(q, r)
            &&& r.name == q.name
            &&& r.url == q.url
            &&& r.extras == text_set::ordered(q.extras)
            &&& requirements::requirement_text(r) == requirements::requirement_text(q)
            &&& meaning(r.marker, env) == meaning(q.marker, env)
        },
{
    let s = requirements::requirement_text(q);
    let specs = q.specifier.specs;
    let p = RequirementSpec { extras: text_set::ordered(q.extras), ..q };
    text_set::law_ordered(q.extras);
    text_set::law_ordered_again(p.extras);
    lemma_ordered_names(q.extras);
    assert(requirements::requirement_text(p) == s);
    lemma_requirement(p);
    lemma_specs_read(specs);
    if q.url is Some {
        assert(specs_text(specs) =~= Seq::empty());
    }
    if let Some(m) = q.marker {
        marker_laws::lemma_reread_parts(m);
        marker_laws::lemma_normal_reread(m);
        marker_laws::law_parts_meaning(m, true, env);
    }
    if requirements::says(s, r) {
        text_set::law_same_ordered(q.extras, r.extras);
        assert(r.specifier.specs == specifier_set::canonical(specs));
        assert(requirements::same_requirement(q, r));
        assert(specs_text(r.specifier.specs) == specs_text(specs));
    }
}

// --- What is read can be written. ---

/// Whether a text is a name but for its end, which it may share with what follows it.
spec fn is_name_before(t: Seq<char>, s: Seq<char>, i: nat) -> bool {
    &&& t.len() > 0
    &&& !text::is_separator(t[0])
    &&& text::all_in(Class::Name, t)
    &&& outside::is_word(t.last()) || (i < s.len() && outside::is_word(s[i as int]))
}

proof fn lemma_last_boundary(s: Seq<char>, n: nat)
    ensures
        tokenizer::last_boundary(s, n) matches Some(m) ==> 0 < m <= n && tokenizer::is_boundary(
            s,
            m,
        ),
    decreases n,
{
    if n > 0 && !tokenizer::is_boundary(s, n) {
        lemma_last_boundary(s, (n - 1) as nat);
    }
}

/// What is read as a name.
proof fn lemma_identifier_shape(s: Seq<char>, i: nat, n: nat)
    requires
        i <= s.len(),
        marker_grammar::token(s, i, Rule::Identifier) == Some(n),
    ensures
        is_name_before(requirement_grammar::token_text(s, i, n), s, i + n),
        0 < n,
        i + n <= s.len(),
{
    let x = text::after(s, i);
    let k = text::run(Class::Name, x);
    let t = text::head(x, n);
    lemma_last_boundary(x, k);
    text::lemma_run_all(Class::Name, x);
    assert forall|j: int| 0 <= j < t.len() implies text::in_class(Class::Name, #[trigger] t[j]) by {
        assert(text::in_class(Class::Name, text::head(x, k)[j]));
    }
    assert(t[0] == x[0]);
    assert(t.last() == x[n - 1]);
    if n < x.len() {
        assert(x[n as int] == s[i as int + n]);
    }
}

/// A word character is no blank, no bracket and no other mark of the grammar.
proof fn lemma_word_char(c: char)
    requires
        outside::is_word(c),
    ensures
        c != ' ' && c != '\t' && c != '[' && c != ']' && c != '@' && c != '(' && c != ')' && c
            != ';' && c != ',' && c != '=' && c != '!' && c != '~' && c != '<' && c != '>',
{
}

/// Nothing that begins with a word character can follow a name.
proof fn lemma_body_word(s: Seq<char>, i: nat)
    requires
        i < s.len(),
        outside::is_word(s[i as int]),
    ensures
        requirement_grammar::read_body(s, i) is Err,
{
    reveal(requirement_grammar::read_body);
    reveal(requirement_grammar::read_extras);
    reveal(requirement_grammar::read_details);
    reveal(requirement_grammar::read_specifier);
    reveal(requirement_grammar::read_tail);
    lemma_word_char(s[i as int]);
    marker_text::lemma_not_blank(s, i);
    let u = text::after(s, i);
    assert(u[0] == s[i as int]);
    lemma_no_operator(s, i, Seq::empty());
}

/// There is no specifier where a word character stands.
proof fn lemma_no_operator(s: Seq<char>, i: nat, t: Seq<char>)
    requires
        i < s.len(),
        outside::is_word(s[i as int]),
    ensures
        requirement_grammar::read_many(s, i, t) == Ok::<(Seq<char>, nat), SyntaxError>((t, i)),
{
    reveal(requirement_grammar::read_many);
    lemma_word_char(s[i as int]);
    clause::lemma_spellings();
    let u = text::after(s, i);
    assert(u[0] == s[i as int]);
    if let Some(op) = clause::operator_at(u) {
        assert(text::starts_with(u, op.spelling()));
        assert(u.take(op.spelling().len() as int)[0] == u[0]);
        lemma_operator_char(op);
    }
}

/// What is read as extras.
proof fn lemma_more_extras_shape(s: Seq<char>, i: nat, l: Seq<Seq<char>>)
    requires
        i <= s.len(),
        l.len() > 0,
        all_names(l.drop_last()),
        is_name_before(l.last(), s, i),
    ensures
        requirement_grammar::read_more_extras(s, i, l) matches Ok((r, j)) ==> all_names(r) || (j
            < s.len() && outside::is_word(s[j as int])),
    decreases s.len() - i,
{
    reveal(requirement_grammar::read_more_extras);
    let j = marker_grammar::blank(s, i);
    let k = marker_grammar::blank(s, j + 1);
    text::lemma_run_len(Class::Blank, text::after(s, i));
    if i < s.len() && outside::is_word(s[i as int]) {
        lemma_word_char(s[i as int]);
        marker_text::lemma_not_blank(s, i);
        assert(text::after(s, i)[0] == s[i as int]);
    } else {
        assert(all_names(l)) by {
            assert forall|n: int| 0 <= n < l.len() implies is_name(#[trigger] l[n]) by {
                if n < l.len() - 1 {
                    assert(l.drop_last()[n] == l[n]);
                }
            }
        }
        if marker_grammar::token(s, j, Rule::Identifier) is None && marker_grammar::token(
            s,
            j,
            Rule::Comma,
        ) is Some {
            text::lemma_run_len(Class::Blank, text::after(s, j + 1));
            if let Some(n) = marker_grammar::token(s, k, Rule::Identifier) {
                lemma_identifier_shape(s, k, n);
                let m = l.push(requirement_grammar::token_text(s, k, n));
                assert(m.drop_last() =~= l);
                lemma_more_extras_shape(s, k + n, m);
            }
        }
    }
}

/// What is read as extras is made of names.
proof fn lemma_extras_shape(s: Seq<char>, i: nat)
    requires
        i <= s.len(),
    ensures
        requirement_grammar::read_extras(s, i) matches Ok((l, _)) ==> all_names(l),
{
    reveal(requirement_grammar::read_extras);
    reveal(requirement_grammar::read_extras_list);
    if marker_grammar::token(s, i, Rule::LeftBracket) is Some {
        text::lemma_run_len(Class::Blank, text::after(s, i + 1));
        let j = marker_grammar::blank(s, i + 1);
        if let Some(n) = marker_grammar::token(s, j, Rule::Identifier) {
            lemma_identifier_shape(s, j, n);
            let one = seq![requirement_grammar::token_text(s, j, n)];
            assert(one.drop_last() =~= Seq::empty());
            lemma_more_extras_shape(s, j + n, one);
            if let Ok((l, k)) = requirement_grammar::read_extras_list(s, j) {
                if k < s.len() && outside::is_word(s[k as int]) {
                    lemma_word_char(s[k as int]);
                    marker_text::lemma_not_blank(s, k);
                    assert(text::after(s, k)[0] == s[k as int]);
                }
            }
        }
    }
}

/// What is read as a set of specifiers can be written.
proof fn lemma_read_all_shape(pieces: Seq<Seq<char>>)
    requires
        forall|i: int| 0 <= i < pieces.len() ==> !(#[trigger] pieces[i]).contains(','),
    ensures
        specifier_set::read_all(pieces) matches Ok(l) ==> specifier_set::is_list(l),
    decreases pieces.len(),
{
    if pieces.len() > 0 {
        let rest = pieces.drop_last();
        assert forall|i: int| 0 <= i < rest.len() implies !(#[trigger] rest[i]).contains(',') by {
            assert(rest[i] == pieces[i]);
        }
        lemma_read_all_shape(rest);
        if let Ok(l) = specifier_set::read_all(rest) {
            let p = pieces[pieces.len() - 1];
            let t = text::trim(p);
            if t.contains(',') {
                text::lemma_trim_within(p, ',');
            }
            if t.len() > 0 {
                if let Some((operator, version)) = clause::read_clause(t) {
                    specifier_set::lemma_member(t);
                    let x = SpecifierSpec { operator, version, prereleases: None };
                    let m = l.push(x);
                    assert forall|i: int| 0 <= i < m.len() implies specifier_set::is_member(
                        #[trigger] m[i],
                    ) && m[i].prereleases is None by {
                        if i < l.len() {
                            assert(m[i] == l[i]);
                            assert(specifier_set::is_member(l[i]));
                            assert(l[i].prereleases is None);
                        }
                    }
                }
            }
        }
    }
}

proof fn lemma_read_set_shape(t: Seq<char>)
    ensures
        specifier_set::read_set(t) matches Ok(l) ==> specifier_set::is_list(l),
{
    let pieces = text::split(t, specifier_set::comma());
    text::lemma_split_parts(t, specifier_set::comma());
    assert forall|i: int| 0 <= i < pieces.len() implies !(#[trigger] pieces[i]).contains(',') by {
        if pieces[i].contains(',') {
            let k = choose|k: int| 0 <= k < pieces[i].len() && pieces[i][k] == ',';
            assert(specifier_set::comma()[0] == ',');
            assert(specifier_set::comma().contains(pieces[i][k]));
        }
    }
    lemma_read_all_shape(pieces);
}

/// What is read behind the extras.
proof fn lemma_details_shape(s: Seq<char>, i: nat)
    requires
        i <= s.len(),
    ensures
        requirement_grammar::read_details(s, i) matches Ok((d, _)) ==> {
            &&& d.url.len() > 0 ==> text::all_in(Class::Solid, d.url) && d.specifier.len() == 0
            &&& d.marker matches Some(l) ==> marker_laws::is_marker(l, false)
        },
{
    reveal(requirement_grammar::read_details);
    reveal(requirement_grammar::read_tail);
    if marker_grammar::token(s, i, Rule::At) is Some {
        reveal(requirement_grammar::read_url);
        let j = marker_grammar::blank(s, i + 1);
        if let Some(n) = marker_grammar::token(s, j, Rule::Url) {
            text::lemma_run_all(Class::Solid, text::after(s, j));
            if let Some(w) = marker_grammar::token(s, j + n, Rule::Ws) {
                marker_laws::lemma_read_marker_shape(s, j + n + w + 1);
            }
        }
    } else if let Ok((t, j)) = requirement_grammar::read_specifier(s, i) {
        marker_laws::lemma_read_marker_shape(s, marker_grammar::blank(s, j) + 1);
    }
}

/// What is read as a requirement can be written, apart from its marker.
#[verifier::rlimit(30)]
pub proof fn law_read_shape(s: Seq<char>, q: RequirementSpec)
    requires
        requirements::says(s, q),
    ensures
        has_shape(q),
        q.marker matches Some(m) ==> marker_laws::is_marker(m, false),
{
    let i = marker_grammar::blank(s, 0);
    text::lemma_run_len(Class::Blank, text::after(s, 0));
    assert(text::after(s, 0) =~= s);
    if let Some(n) = marker_grammar::token(s, i, Rule::Identifier) {
        lemma_identifier_shape(s, i, n);
        let k = i + n;
        if k < s.len() && outside::is_word(s[k as int]) {
            lemma_body_word(s, k);
        }
        lemma_body_shape(s, k);
        if let Ok((extras, details)) = requirement_grammar::read_body(s, k) {
            lemma_ordered_names(extras);
            lemma_read_set_shape(details.specifier);
            if details.url.len() > 0 {
                assert(details.specifier =~= Seq::empty());
                specifier_laws::law_empty_set(Seq::empty(), None);
            }
            if let Some(l) = details.marker {
                marker_laws::lemma_normal_shape(l);
            }
        }
    }
}

/// What is read behind a name.
proof fn lemma_body_shape(s: Seq<char>, i: nat)
    requires
        i <= s.len(),
    ensures
        requirement_grammar::read_body(s, i) matches Ok((extras, d)) ==> {
            &&& all_names(extras)
            &&& d.url.len() > 0 ==> text::all_in(Class::Solid, d.url) && d.specifier.len() == 0
            &&& d.marker matches Some(l) ==> marker_laws::is_marker(l, false)
        },
{
    reveal(requirement_grammar::read_body);
    text::lemma_run_len(Class::Blank, text::after(s, i));
    let j = marker_grammar::blank(s, i);
    lemma_extras_shape(s, j);
    lemma_extras_end(s, j);
    if let Ok((extras, k)) = requirement_grammar::read_extras(s, j) {
        text::lemma_run_len(Class::Blank, text::after(s, k));
        lemma_details_shape(s, marker_grammar::blank(s, k));
    }
}

proof fn lemma_more_extras_end(s: Seq<char>, i: nat, l: Seq<Seq<char>>)
    requires
        i <= s.len(),
    ensures
        requirement_grammar::read_more_extras(s, i, l) matches Ok((_, j)) ==> j <= s.len(),
    decreases s.len() - i,
{
    reveal(requirement_grammar::read_more_extras);
    let j = marker_grammar::blank(s, i);
    let k = marker_grammar::blank(s, j + 1);
    text::lemma_run_len(Class::Blank, text::after(s, i));
    if marker_grammar::token(s, j, Rule::Identifier) is None && marker_grammar::token(
        s,
        j,
        Rule::Comma,
    ) is Some {
        text::lemma_run_len(Class::Blank, text::after(s, j + 1));
        if let Some(n) = marker_grammar::token(s, k, Rule::Identifier) {
            lemma_identifier_shape(s, k, n);
            lemma_more_extras_end(s, k + n, l.push(requirement_grammar::token_text(s, k, n)));
        }
    }
}

/// The place behind extras is within the source.
proof fn lemma_extras_end(s: Seq<char>, i: nat)
    requires
        i <= s.len(),
    ensures
        requirement_grammar::read_extras(s, i) matches Ok((_, j)) ==> j <= s.len(),
{
    reveal(requirement_grammar::read_extras);
    reveal(requirement_grammar::read_extras_list);
    if marker_grammar::token(s, i, Rule::LeftBracket) is Some {
        text::lemma_run_len(Class::Blank, text::after(s, i + 1));
        let j = marker_grammar::blank(s, i + 1);
        if let Some(n) = marker_grammar::token(s, j, Rule::Identifier) {
            lemma_identifier_shape(s, j, n);
            lemma_more_extras_end(s, j + n, seq![requirement_grammar::token_text(s, j, n)]);
        }
        if let Ok((_, k)) = requirement_grammar::read_extras_list(s, j) {
            text::lemma_run_len(Class::Blank, text::after(s, k));
        }
    }
}

/// Reading, writing and reading again: the requirement that is read from the text of a
/// requirement that was read is equal to it, has the same text, and has a marker that says the
/// same. The texts in the marker have to be readable from between double quotes, and the names
/// of extras in it have to stay as they are when they are normalized again.
pub proof fn law_requirement_again(
    s: Seq<char>,
    q: RequirementSpec,
    r: RequirementSpec,
    env: spec_fn(Seq<char>) -> Option<Value>,
)
    requires
        requirements::says(s, q),
        q.marker matches Some(m) ==> marker_laws::has_quotable_values(Tree::List(m))
            && marker_grammar::normal_list(m) == m,
    ensures
        requirements::requirement_error(requirements::requirement_text(q)) is None,
        requirements::says(requirements::requirement_text(q), r) ==> {
            &&& requirements::same_requirement(q, r)
            &&& r.name == q.name
            &&& r.url == q.url
            &&& r.extras == q.extras
            &&& requirements::requirement_text(r) == requirements::requirement_text(q)
            &&& meaning(r.marker, env) == meaning(q.marker, env)
        },
{
    law_read_shape(s, q);
    if let Ok(p) = requirement_grammar::read_requirement(s) {
        text_set::law_ordered(p.extras);
        text_set::law_ordered_again(q.extras);
    }
    if let Some(m) = q.marker {
        marker_laws::law_marker_values(m);
    }
    law_requirement_text(q, r, env);
}

} // verus!
