//! Laws of version specifiers: which texts are specifiers, and which versions they admit.

use vstd::prelude::*;

use crate::canonical;
use crate::clause::{self, Operator};
use crate::grammar::{self, VersionSpec};
use crate::matching;
use crate::order_laws;
use crate::outside;
use crate::patterns;
use crate::ranking;
use crate::specifier_set;
use crate::specifiers::{self, SpecifierSpec};
use crate::spellings;
use crate::text::{self, Class};
use crate::version;
use crate::version_laws;

verus! {

// --- Which texts are specifiers. ---

/// What holds of the text of a version.
proof fn lemma_version_text(t: Seq<char>, w: VersionSpec)
    requires
        grammar::read_version(t) == Some(w),
    ensures
        t.len() > 0,
        t[0] != '=',
        !text::is_space(t[0]),
        !text::is_space(t.last()),
        grammar::version_chars(t, t.len()),
        clause::past_stages(t).len() > 0 <==> w.local is Some,
        !text::starts_with(clause::past_release(t), clause::star()),
        !text::ends_with(t, clause::star()),
{
    clause::lemma_version_chars(t);
    clause::lemma_stage_chars(t);
    let n = grammar::release_len(clause::past_epoch(t));
    let e = clause::past_epoch(t);
    grammar::lemma_base_chars(t);
    let s1 = text::after(t, grammar::v_len(t));
    grammar::lemma_base_chars(s1);
    grammar::lemma_base_chars(e);
    assert(t.len() > 0);
    assert(grammar::is_version_char(t[0]));
    assert(grammar::is_version_char(t[t.len() - 1]));
    reveal_strlit(".*");
    let p = clause::past_release(t);
    if text::starts_with(p, clause::star()) {
        assert(p.take(2)[1] == '*');
        assert(p[1] == t[t.len() - p.len() + 1]);
        assert(grammar::is_version_char(t[t.len() - p.len() + 1]));
    }
    if text::ends_with(t, clause::star()) {
        assert(t.skip(t.len() - 2)[1] == '*');
    }
}

/// How much of a text after an operator belongs to the version.
proof fn lemma_version_len(op: Operator, t: Seq<char>, w: VersionSpec)
    requires
        grammar::read_version(t) == Some(w),
        op != Operator::Arbitrary,
    ensures
        ({
            let labelled = w.local is Some && op != Operator::Equal && op != Operator::NotEqual;
            let short = op == Operator::Compatible && w.release.len() < 2;
            clause::version_len(op, t) == Some(t.len()) <==> !labelled && !short
        }),
{
    lemma_version_text(t, w);
    clause::lemma_stage_chars(t);
    let e = clause::past_epoch(t);
    let n = grammar::release_len(e);
    let h = text::head(e, n);
    let marks = grammar::dot();
    grammar::lemma_list_head(Class::Digit, marks, e);
    text::lemma_run_all(Class::Digit, e);
    assert(w.release == grammar::release_numbers(h));
    if n == text::run(Class::Digit, e) {
        let one = seq![h];
        assert forall|i: int, j: int|
            0 <= i < one.len() && 0 <= j < one[i].len() implies !marks.contains(
            #[trigger] one[i][j],
        ) by {
            assert(text::in_class(Class::Digit, h[j]));
        }
        assert(marks[0] == '.');
        assert(marks.contains('.'));
        text::lemma_split_join(one, '.', marks);
        assert(text::join(one, seq!['.']) == h);
        assert(w.release.len() == 1);
    } else {
        let k = text::run(Class::Digit, e);
        assert(e[k as int] == '.') by {
            let r = text::after(e, k);
            assert(grammar::rest_len(Class::Digit, marks, r) > 0);
            assert(marks.contains(r[0]));
            let m = choose|m: int| 0 <= m < marks.len() && marks[m] == r[0];
            assert(r[0] == e[k as int]);
        }
        assert(h[k as int] == '.');
        assert forall|i: int| 0 <= i < k implies !marks.contains(#[trigger] h[i]) by {
            assert(text::in_class(Class::Digit, text::head(e, k)[i]));
        }
        assert(marks[0] == '.');
        assert(marks.contains('.'));
        text::lemma_first_of(h, marks, k as int);
        let more = h.skip(k as int + 1);
        assert(text::split(h, marks) == seq![h.take(k as int)] + text::split(more, marks));
        assert(text::split(more, marks).len() > 0);
        assert(w.release.len() >= 2);
    }
    if op == Operator::Equal || op == Operator::NotEqual {
        let s6 = clause::past_stages(t);
        assert(grammar::local_len(s6) == s6.len());
        assert(text::after(s6, s6.len()).len() == 0);
    }
}

/// An operator and what follows it, with white space around them.
pub proof fn lemma_clause_spaced(
    op: Operator,
    before: Seq<char>,
    between: Seq<char>,
    t: Seq<char>,
    behind: Seq<char>,
)
    requires
        text::all_in(Class::Space, before),
        text::all_in(Class::Space, between),
        text::all_in(Class::Space, behind),
        t.len() > 0,
        !text::is_space(t[0]),
        !text::is_space(t.last()),
        op != Operator::Arbitrary ==> t[0] != '=',
    ensures
        clause::read_clause(before + (op.spelling() + between + t) + behind)
            == (if clause::version_len(op, t) == Some(t.len()) {
            Some((op, t))
        } else {
            None
        }),
{
    let o = op.spelling();
    let s = o + between + t;
    let r = between + t;
    spellings::lemma_trim_behind(before + s, behind);
    spellings::lemma_trim_before(before, s);
    assert(s =~= o + r);
    if between.len() > 0 {
        assert(text::in_class(Class::Space, between[0]));
    }
    clause::lemma_operator_at(op, r);
    assert(s[0] == o[0]);
    assert(s.last() == t.last());
    text::lemma_trim_none(s);
    assert(text::after(s, o.len()) =~= r);
    spellings::lemma_run_behind(between, t);
    assert(text::run(Class::Space, t) == 0);
    assert(text::after(r, between.len()) =~= t);
    assert(clause::past_operator(s, op) == t);
    text::lemma_trim_none(t);
    spellings::lemma_trim_before(between, t);
}

/// An operator and the text of a version make a specifier, with or without white space around
/// them. Only `==` and `!=` take local labels, and `~=` takes no single number.
pub proof fn law_specifier(
    op: Operator,
    before: Seq<char>,
    between: Seq<char>,
    w: VersionSpec,
    behind: Seq<char>,
)
    requires
        text::all_in(Class::Space, before),
        text::all_in(Class::Space, between),
        text::all_in(Class::Space, behind),
        version_laws::sound(w),
        op != Operator::Arbitrary,
    ensures
        ({
            let t = canonical::render(w);
            let takes = (w.local is None || op == Operator::Equal || op == Operator::NotEqual) && (op
                == Operator::Compatible ==> w.release.len() >= 2);
            clause::read_clause(before + (op.spelling() + between + t) + behind) == if takes {
                Some((op, t))
            } else {
                None
            }
        }),
{
    let t = canonical::render(w);
    version_laws::lemma_sound(w);
    canonical::lemma_read_render(w);
    lemma_version_text(t, w);
    lemma_version_len(op, t, w);
    lemma_clause_spaced(op, before, between, t, behind);
}

/// The same for every text that says a version as a whole, however it is spelled.
pub proof fn law_specifier_text(
    op: Operator,
    before: Seq<char>,
    between: Seq<char>,
    t: Seq<char>,
    w: VersionSpec,
    behind: Seq<char>,
)
    requires
        text::all_in(Class::Space, before),
        text::all_in(Class::Space, between),
        text::all_in(Class::Space, behind),
        grammar::read_version(t) == Some(w),
        op != Operator::Arbitrary,
    ensures
        ({
            let takes = (w.local is None || op == Operator::Equal || op == Operator::NotEqual) && (op
                == Operator::Compatible ==> w.release.len() >= 2);
            clause::read_clause(before + (op.spelling() + between + t) + behind) == if takes {
                Some((op, t))
            } else {
                None
            }
        }),
{
    lemma_version_text(t, w);
    lemma_version_len(op, t, w);
    lemma_clause_spaced(op, before, between, t, behind);
}

/// Only that is a specifier: an operator and, behind white space, `===` aside, a version or a
/// pattern. Only `==` and `!=` take patterns and local labels, and `~=` takes two numbers or
/// more. `===` takes a text without white space, semicolons and closing parentheses.
pub proof fn law_only_specifiers(s: Seq<char>)
    requires
        clause::read_clause(s) is Some,
    ensures
        ({
            let (op, t) = clause::read_clause(s).unwrap();
            let equality = op == Operator::Equal || op == Operator::NotEqual;
            let u = text::trim(s);
            &&& u.len() >= op.spelling().len() + t.len()
            &&& u.take(op.spelling().len() as int) == op.spelling()
            &&& u.skip(u.len() - t.len()) == t
            &&& forall|i: int|
                op.spelling().len() <= i < u.len() - t.len() ==> text::is_space(#[trigger] u[i])
            &&& op == Operator::Arbitrary ==> forall|i: int|
                0 <= i < t.len() ==> !text::is_space(#[trigger] t[i]) && t[i] != ';' && t[i] != ')'
            &&& op != Operator::Arbitrary ==> match grammar::read_version(t) {
                Some(w) => (w.local is None || equality) && (op == Operator::Compatible
                    ==> w.release.len() >= 2),
                None => equality && t.len() > 2 && t.skip(t.len() - 2) == ".*"@ && (
                grammar::read_version(t.take(t.len() - 2)) matches Some(w) && w.pre is None
                    && w.post is None && w.dev is None && w.local is None),
            }
        }),
{
    let (op, t) = clause::read_clause(s).unwrap();
    let u = text::trim(s);
    let o = op.spelling();
    clause::law_clause_version(s);
    clause::lemma_clause_chars(s);
    if op == Operator::Arbitrary {
        assert forall|i: int| 0 <= i < t.len() implies !text::is_space(#[trigger] t[i]) && t[i]
            != ';' && t[i] != ')' by {
            assert(text::in_class(Class::Plain, t[i]));
        }
    } else if let Some(w) = grammar::read_version(t) {
        lemma_version_len(op, t, w);
    } else {
        reveal_strlit(".*");
        assert(t.take(0) =~= Seq::<char>::empty());
        if t.len() == 2 {
            let e = t.take(t.len() - 2);
            assert(e =~= Seq::<char>::empty());
            lemma_no_empty_version(e);
        }
    }
    lemma_clause_parts(s);
}

proof fn lemma_no_empty_version(e: Seq<char>)
    requires
        e.len() == 0,
    ensures
        grammar::read_version(e) is None,
{
    assert(text::after(e, 0) =~= e);
}

proof fn lemma_clause_parts(s: Seq<char>)
    requires
        clause::read_clause(s) is Some,
    ensures
        ({
            let (op, t) = clause::read_clause(s).unwrap();
            let u = text::trim(s);
            &&& u.len() >= op.spelling().len() + t.len()
            &&& u.take(op.spelling().len() as int) == op.spelling()
            &&& u.skip(u.len() - t.len()) == t
            &&& forall|i: int|
                op.spelling().len() <= i < u.len() - t.len() ==> text::is_space(#[trigger] u[i])
        }),
{
    let (op, t) = clause::read_clause(s).unwrap();
    let u = text::trim(s);
    let o = op.spelling();
    assert(text::starts_with(u, o));
    let r = text::after(u, o.len());
    text::lemma_trim_ends(s);
    let n = text::run(Class::Space, r);
    text::lemma_run_all(Class::Space, r);
    let c = r.skip(n as int);
    text::lemma_trim_end(c);
    if c.len() > 0 {
        assert(c.last() == u.last());
        assert(text::trim_end(c) == c);
    }
    assert(t == c);
    assert(u.skip(u.len() - t.len()) =~= t);
    assert forall|i: int| o.len() <= i < u.len() - t.len() implies text::is_space(
        #[trigger] u[i],
    ) by {
        assert(text::head(r, n)[i - o.len()] == u[i]);
        assert(text::in_class(Class::Space, text::head(r, n)[i - o.len()]));
    }
}

/// A release and `.*` make a pattern after `==` and `!=`, and nothing after other operators.
pub proof fn law_pattern_specifier(op: Operator, between: Seq<char>, w: VersionSpec)
    requires
        text::all_in(Class::Space, between),
        version_laws::sound(w),
        w.pre is None && w.post is None && w.dev is None && w.local is None,
        op != Operator::Arbitrary,
    ensures
        ({
            let t = canonical::render(w) + ".*"@;
            clause::read_clause(op.spelling() + between + t) == if op == Operator::Equal || op
                == Operator::NotEqual {
                Some((op, t))
            } else {
                None
            }
        }),
{
    reveal_strlit(".*");
    let b = canonical::render(w);
    let t = b + ".*"@;
    let none = Seq::<char>::empty();
    version_laws::lemma_sound(w);
    canonical::lemma_read_render(w);
    lemma_version_text(b, w);
    assert(t[0] == b[0]);
    assert(t.last() == '*');
    lemma_clause_spaced(op, none, between, t, none);
    let s = op.spelling() + between + t;
    assert(none + s + none =~= s);
    if op == Operator::Equal || op == Operator::NotEqual {
        lemma_release_before(b, w, ".*"@);
        let p = clause::past_release(t);
        assert(p.take(2) =~= clause::star());
        assert(p.skip(2).len() == 0);
        assert(clause::version_len(op, t) == Some(t.len()));
    } else {
        clause::lemma_stage_chars(t);
        if clause::past_stages(t).len() == 0 {
            assert(grammar::is_version_char(t[t.len() - 1]));
        }
    }
}

/// What follows the text of a release.
proof fn lemma_release_before(b: Seq<char>, w: VersionSpec, tail: Seq<char>)
    requires
        version_laws::sound(w),
        w.pre is None && w.post is None && w.dev is None && w.local is None,
        b == canonical::render(w),
        tail.len() > 0 ==> grammar::ends_list(Class::Digit, grammar::dot(), tail) && tail[0] != '!',
    ensures
        clause::past_release(b + tail) == tail,
        grammar::release_len(clause::past_epoch(b + tail)) > 0,
{
    let t = b + tail;
    let dot = grammar::dot();
    version_laws::lemma_sound(w);
    let ds = canonical::decimals(w.release);
    let r = canonical::release_text(w.release);
    let e = canonical::epoch_text(w.epoch);
    assert(b =~= e + r);
    assert forall|i: int| 0 <= i < ds.len() implies (#[trigger] ds[i]).len() > 0 && text::all_in(
        Class::Digit,
        ds[i],
    ) by {
        text::lemma_decimal(w.release[i]);
    }
    assert(dot[0] == '.');
    assert(dot.contains('.'));
    assert(seq!['.'] =~= dot);
    grammar::lemma_list_join(Class::Digit, dot, ds, '.', tail);
    let d0 = ds[0];
    assert(text::in_class(Class::Digit, d0[0]));
    assert(r[0] == d0[0]) by {
        if ds.len() > 1 {
            assert(r == d0 + dot + text::join(ds.skip(1), dot));
        }
    }
    text::lemma_decimal(w.epoch);
    assert(text::in_class(Class::Digit, text::decimal(w.epoch)[0]));
    assert(t[0] == b[0]);
    assert(text::is_digit(b[0]));
    assert(grammar::v_len(t) == 0);
    assert(text::after(t, 0) =~= t);
    let u = r + tail;
    if w.epoch == 0 {
        assert(t =~= u);
        let k = text::run(Class::Digit, u);
        text::lemma_run_all(Class::Digit, u);
        let rest = if ds.len() > 1 {
            dot + text::join(ds.skip(1), dot) + tail
        } else {
            tail
        };
        assert(u =~= d0 + rest);
        text::lemma_run_concat(Class::Digit, d0, rest);
        assert(grammar::epoch_len(u) == 0) by {
            if rest.len() > 0 {
                assert(u[d0.len() as int] == rest[0]);
            }
        }
        assert(text::after(t, 0) =~= u);
    } else {
        let d = text::decimal(w.epoch);
        assert(t =~= d + (seq!['!'] + u));
        text::lemma_run_concat(Class::Digit, d, seq!['!'] + u);
        assert(t[d.len() as int] == '!');
        assert(t[d.len() as int + 1] == u[0]);
        assert(text::after(t, d.len() + 1) =~= u);
    }
    assert(clause::past_epoch(t) == u);
    assert(text::after(u, r.len()) =~= tail);
}

/// `===` takes any text without white space, semicolons and closing parentheses.
pub proof fn law_arbitrary_specifier(between: Seq<char>, t: Seq<char>)
    requires
        text::all_in(Class::Space, between),
        t.len() > 0,
        forall|i: int|
            0 <= i < t.len() ==> !text::is_space(#[trigger] t[i]) && t[i] != ';' && t[i] != ')',
    ensures
        clause::read_clause("==="@ + between + t) == Some((Operator::Arbitrary, t)),
{
    let none = Seq::<char>::empty();
    let op = Operator::Arbitrary;
    assert(text::all_in(Class::Plain, t));
    text::lemma_run_concat(Class::Plain, t, none);
    assert(t + none =~= t);
    lemma_clause_spaced(op, none, between, t, none);
    let s = op.spelling() + between + t;
    assert(none + s + none =~= s);
}

/// How the operators are written.
pub proof fn law_spellings()
    ensures
        Operator::Compatible.spelling() == "~="@,
        Operator::Equal.spelling() == "=="@,
        Operator::NotEqual.spelling() == "!="@,
        Operator::AtMost.spelling() == "<="@,
        Operator::AtLeast.spelling() == ">="@,
        Operator::Below.spelling() == "<"@,
        Operator::Above.spelling() == ">"@,
        Operator::Arbitrary.spelling() == "==="@,
{
}

// --- Which versions are admitted. ---

/// Whether a specifier contains what a text says, where pre-releases are let through.
pub open spec fn admitted(op: Operator, item: Seq<char>, t: Seq<char>) -> bool {
    specifiers::contains(
        SpecifierSpec { operator: op, version: t, prereleases: None },
        item,
        Some(true),
    )
}

/// A version without its local label.
pub open spec fn unlabelled(v: VersionSpec) -> VersionSpec {
    VersionSpec { local: None, ..v }
}

/// A text that says a version is no pattern.
pub proof fn lemma_no_pattern(t: Seq<char>)
    requires
        version::parse_version(t) is Some,
    ensures
        !text::ends_with(t, clause::star()),
{
    let u = text::trim(t);
    lemma_version_text(u, version::parse_version(t).unwrap());
    reveal_strlit(".*");
    if text::ends_with(t, clause::star()) {
        assert(t.skip(t.len() - 2)[1] == '*');
        assert(t.last() == '*');
        let n = text::run(Class::Space, t);
        text::lemma_run_all(Class::Space, t);
        let r = t.skip(n as int);
        if n == t.len() {
            assert(text::in_class(Class::Space, text::head(t, n)[t.len() - 1]));
        }
        assert(r.last() == '*');
        assert(u == r);
        assert(grammar::is_version_char(u[u.len() - 1]));
    }
}

/// `==V` admits the versions with the epoch, the numbers, the pre-release, the post-release and
/// the development release of `V`, and with its local label if it has one; `!=V` admits the
/// others.
pub proof fn law_equals(v: VersionSpec, item: Seq<char>, w: VersionSpec, t: Seq<char>)
    requires
        version::parse_version(item) == Some(v),
        version::parse_version(t) == Some(w),
    ensures
        admitted(Operator::Equal, item, t) <==> order_laws::same_public(v, w) && (w.local is Some
            ==> v.local == w.local),
        admitted(Operator::NotEqual, item, t) <==> !admitted(Operator::Equal, item, t),
{
    lemma_no_pattern(t);
    order_laws::law_equal(v, w);
    order_laws::law_equal(unlabelled(v), w);
    assert(matching::public(v) == unlabelled(v));
    if order_laws::same_public(v, w) {
        assert(order_laws::same_numbers(unlabelled(v), w));
    }
    if order_laws::same_numbers(unlabelled(v), w) {
        assert(order_laws::same_numbers(v, w)) by {
            assert forall|i: int| 0 <= i implies #[trigger] order_laws::number_at(v.release, i)
                == order_laws::number_at(w.release, i) by {
                assert(order_laws::number_at(unlabelled(v).release, i) == order_laws::number_at(
                    w.release,
                    i,
                ));
            }
        }
    }
}

/// `<=V` and `>=V` admit the versions that are at most and at least `V` without their local
/// labels.
pub proof fn law_bounds(v: VersionSpec, item: Seq<char>, w: VersionSpec, t: Seq<char>)
    requires
        version::parse_version(item) == Some(v),
        version::parse_version(t) == Some(w),
    ensures
        admitted(Operator::AtMost, item, t) <==> ranking::compare(unlabelled(v), w) <= 0,
        admitted(Operator::AtLeast, item, t) <==> ranking::compare(unlabelled(v), w) >= 0,
{
    assert(matching::public(v) == unlabelled(v));
}

/// `<V` admits the versions before `V`, but for pre-releases and development releases of the
/// release of `V` where `V` is neither.
pub proof fn law_below(v: VersionSpec, item: Seq<char>, w: VersionSpec, t: Seq<char>)
    requires
        version::parse_version(item) == Some(v),
        version::parse_version(t) == Some(w),
    ensures
        admitted(Operator::Below, item, t) <==> ranking::compare(v, w) < 0 && !(w.pre is None
            && w.dev is None && (v.pre is Some || v.dev is Some) && order_laws::same_numbers(v, w)),
{
    order_laws::law_same_numbers(v, w);
}

/// `>V` admits the versions after `V`, but for those with the numbers of `V` that have a local
/// label or that are post-releases where `V` is none.
pub proof fn law_above(v: VersionSpec, item: Seq<char>, w: VersionSpec, t: Seq<char>)
    requires
        version::parse_version(item) == Some(v),
        version::parse_version(t) == Some(w),
    ensures
        admitted(Operator::Above, item, t) <==> ranking::compare(v, w) > 0 && !(
        order_laws::same_numbers(v, w) && (v.local is Some || (v.post is Some && w.post is None))),
        ranking::compare(v, w) > 0 && !order_laws::same_numbers(v, w) ==> admitted(
            Operator::Above,
            item,
            t,
        ),
{
    order_laws::law_same_numbers(v, w);
}

/// `==V.*` admits the versions with the epoch of `V` whose release begins with the numbers of
/// `V`, where missing numbers are zeros; `!=V.*` admits the others.
pub proof fn law_pattern(v: VersionSpec, item: Seq<char>, w: VersionSpec, base: Seq<char>)
    requires
        version::parse_version(item) == Some(v),
        version::parse_version(base) == Some(w),
        w.pre is None && w.post is None && w.dev is None && w.local is None,
    ensures
        admitted(Operator::Equal, item, base + ".*"@) <==> v.epoch == w.epoch && (forall|i: int|
            0 <= i < w.release.len() ==> #[trigger] order_laws::number_at(v.release, i)
                == w.release[i]),
        admitted(Operator::NotEqual, item, base + ".*"@) <==> !admitted(
            Operator::Equal,
            item,
            base + ".*"@,
        ),
{
    version::lemma_parse_valid(item);
    patterns::law_pattern(v, base);
    lemma_begins(v.release, w.release);
}

proof fn lemma_begins(r: Seq<nat>, head: Seq<nat>)
    ensures
        patterns::begins(r, head) <==> (forall|i: int|
            0 <= i < head.len() ==> #[trigger] order_laws::number_at(r, i) == head[i]),
{
    if patterns::begins(r, head) {
        assert forall|i: int| 0 <= i < head.len() implies #[trigger] order_laws::number_at(r, i)
            == head[i] by {
            assert(version::component(r, i) == head[i]);
        }
    }
    if forall|i: int| 0 <= i < head.len() ==> #[trigger] order_laws::number_at(r, i) == head[i] {
        assert forall|i: int| 0 <= i < head.len() implies version::component(r, i)
            == #[trigger] head[i] by {
            assert(order_laws::number_at(r, i) == head[i]);
        }
    }
}

/// `~=V` admits the versions that are at least `V` and have the epoch of `V` and the numbers of
/// its release but for the last.
pub proof fn law_compatible(v: VersionSpec, item: Seq<char>, w: VersionSpec)
    requires
        version::parse_version(item) == Some(v),
        version_laws::sound(w),
        w.local is None,
        w.release.len() >= 2,
    ensures
        admitted(Operator::Compatible, item, canonical::render(w)) <==> ranking::compare(
            unlabelled(v),
            w,
        ) >= 0 && v.epoch == w.epoch && (forall|i: int|
            0 <= i < w.release.len() - 1 ==> #[trigger] order_laws::number_at(v.release, i)
                == w.release[i]),
{
    version::lemma_parse_valid(item);
    version_laws::lemma_sound(w);
    patterns::law_compatible(v, w);
    assert(matching::public(v) == unlabelled(v));
    let d = w.release.drop_last();
    lemma_begins(v.release, d);
    assert(d.len() == w.release.len() - 1);
    assert(forall|i: int| 0 <= i < d.len() ==> #[trigger] d[i] == w.release[i]);
}

/// `===T` admits the versions whose canonical text is `T` but for the case of letters.
pub proof fn law_arbitrary(v: VersionSpec, item: Seq<char>, t: Seq<char>)
    requires
        version::parse_version(item) == Some(v),
    ensures
        t == canonical::render(v) ==> admitted(Operator::Arbitrary, item, t),
        text::is_ascii(t) && text::is_ascii(canonical::render(v)) ==> (admitted(
            Operator::Arbitrary,
            item,
            t,
        ) <==> spellings::same_letters(canonical::render(v), t)),
{
}

/// What is no version is admitted by nothing, whatever is asked for.
pub proof fn law_no_version(s: SpecifierSpec, item: Seq<char>, prereleases: Option<bool>)
    requires
        version::parse_version(item) is None,
    ensures
        !specifiers::contains(s, item, prereleases),
{
}

// --- When specifiers are the same. ---

/// Two specifiers with versions are the same where their operators are and, for `===`, their
/// texts are the same; for `~=`, their versions say the same, zeros included; and otherwise their
/// versions are equal. Patterns are the same where their texts are.
pub proof fn law_same_specifier(
    a: SpecifierSpec,
    v: VersionSpec,
    b: SpecifierSpec,
    w: VersionSpec,
)
    requires
        version::parse_version(a.version) == Some(v),
        version::parse_version(b.version) == Some(w),
    ensures
        specifiers::same_clause(a, b) <==> a.operator == b.operator && (match a.operator {
            Operator::Arbitrary => a.version == b.version,
            Operator::Compatible => v == w,
            _ => ranking::compare(v, w) == 0,
        }),
{
    lemma_no_pattern(a.version);
    lemma_no_pattern(b.version);
    version::lemma_parse_valid(a.version);
    version::lemma_parse_valid(b.version);
    lemma_render_same(v, w);
    let (x, y) = (stripped(v), stripped(w));
    lemma_stripped(v);
    lemma_stripped(w);
    lemma_render_same(x, y);
    ranking::law_total_order(v, w, w);
    if ranking::compare(v, w) == 0 {
        assert(ranking::trimmed(v) == ranking::trimmed(w));
        assert(ranking::trimmed(v).release == ranking::trimmed(w).release);
        version::lemma_trim_keeping_one(v.release);
        version::lemma_trim_keeping_one(w.release);
        assert(x.release =~= y.release);
        assert(x =~= y);
    }
    if x == y {
        assert(x.release == y.release);
        assert(ranking::trim_release(v.release) == ranking::trim_release(w.release));
        assert(v.epoch == x.epoch && w.epoch == y.epoch);
        assert(ranking::trimmed(v) =~= ranking::trimmed(w));
    }
}

spec fn stripped(v: VersionSpec) -> VersionSpec {
    VersionSpec { release: version::trim_keeping_one(v.release), ..v }
}

proof fn lemma_stripped(v: VersionSpec)
    requires
        version::is_version(v),
        version::fits(v),
    ensures
        version::is_version(stripped(v)),
        version::fits(stripped(v)),
        ranking::trim_release(stripped(v).release) == ranking::trim_release(v.release),
{
    version::lemma_trim_keeping_one(v.release);
    let r = stripped(v).release;
    assert forall|i: int| 0 <= i < r.len() implies version::small(#[trigger] r[i]) by {
        assert(version::small(v.release[i]));
    }
}

proof fn lemma_render_same(v: VersionSpec, w: VersionSpec)
    requires
        version::is_version(v),
        version::fits(v),
        version::is_version(w),
        version::fits(w),
    ensures
        canonical::render(v) == canonical::render(w) <==> v == w,
{
    canonical::law_parse_render(v);
    canonical::law_parse_render(w);
}

/// Patterns are the same where their operators and their texts are.
pub proof fn law_same_pattern(a: SpecifierSpec, b: SpecifierSpec, s: Seq<char>, t: Seq<char>)
    requires
        a.version == s + ".*"@,
        b.version == t + ".*"@,
    ensures
        specifiers::same_clause(a, b) <==> a.operator == b.operator && s == t,
{
    reveal_strlit(".*");
    assert(a.version.skip(a.version.len() - 2) =~= ".*"@);
    assert(b.version.skip(b.version.len() - 2) =~= ".*"@);
    if a.version == b.version {
        assert(s =~= a.version.take(a.version.len() - 2));
        assert(t =~= b.version.take(b.version.len() - 2));
    }
}

/// What was set for pre-releases does not matter to whether specifiers are the same.
pub proof fn law_same_policy(a: SpecifierSpec, b: SpecifierSpec, p: Option<bool>)
    ensures
        specifiers::same_clause(SpecifierSpec { prereleases: p, ..a }, b)
            == specifiers::same_clause(a, b),
{
}

// --- Sets. ---

proof fn lemma_split_add(a: Seq<char>, b: Seq<char>)
    ensures
        text::split(a + ","@ + b, specifier_set::comma()) == text::split(a, specifier_set::comma())
            + text::split(b, specifier_set::comma()),
    decreases a.len(),
{
    reveal_strlit(",");
    let marks = specifier_set::comma();
    assert(marks[0] == ',');
    assert(marks.contains(','));
    let s = a + ","@ + b;
    text::lemma_first_of_all(a, marks);
    let n = text::first_of(a, marks) as int;
    assert forall|i: int| 0 <= i < n implies !marks.contains(#[trigger] s[i]) by {
        assert(s[i] == a[i]);
    }
    if n < a.len() {
        assert(s[n] == a[n]);
        text::lemma_first_of(s, marks, n);
        let r = a.skip(n + 1);
        lemma_split_add(r, b);
        assert(s.skip(n + 1) =~= r + ","@ + b);
        assert(s.take(n) =~= a.take(n));
        assert(text::split(s, marks) =~= text::split(a, marks) + text::split(b, marks));
    } else {
        assert(s[n] == ',');
        text::lemma_first_of(s, marks, n);
        assert(s.take(n) =~= a);
        assert(s.skip(n + 1) =~= b);
        assert(text::split(a, marks) =~= seq![a]);
        assert(text::split(s, marks) =~= text::split(a, marks) + text::split(b, marks));
    }
}

proof fn lemma_read_add(p: Seq<Seq<char>>, q: Seq<Seq<char>>)
    ensures
        specifier_set::read_all(p + q) == match specifier_set::read_all(p) {
            Err(e) => Err(e),
            Ok(x) => match specifier_set::read_all(q) {
                Err(e) => Err(e),
                Ok(y) => Ok(x + y),
            },
        },
    decreases q.len(),
{
    if q.len() == 0 {
        assert(p + q =~= p);
        if let Ok(x) = specifier_set::read_all(p) {
            assert(x + Seq::<SpecifierSpec>::empty() =~= x);
        }
    } else {
        let d = q.drop_last();
        lemma_read_add(p, d);
        assert((p + q).drop_last() =~= p + d);
        assert((p + q).last() == q.last());
        if let (Ok(x), Ok(y)) = (specifier_set::read_all(p), specifier_set::read_all(d)) {
            let t = text::trim(q.last());
            if let Some((operator, version)) = clause::read_clause(t) {
                let s = SpecifierSpec { operator, version, prereleases: None };
                assert((x + y).push(s) =~= x + y.push(s));
            }
        }
    }
}

/// Two sets with a comma between them are read as the specifiers of both, in their order. The
/// first error is that of the whole.
pub proof fn law_read_sets(a: Seq<char>, b: Seq<char>)
    ensures
        specifier_set::read_set(a + ","@ + b) == match specifier_set::read_set(a) {
            Err(e) => Err(e),
            Ok(x) => match specifier_set::read_set(b) {
                Err(e) => Err(e),
                Ok(y) => Ok(x + y),
            },
        },
{
    lemma_split_add(a, b);
    lemma_read_add(
        text::split(a, specifier_set::comma()),
        text::split(b, specifier_set::comma()),
    );
}

/// A text without commas is read as the specifier that it says, or as nothing where it is white
/// space alone. Otherwise it is the error, without the white space around it.
pub proof fn law_read_one(s: Seq<char>)
    requires
        !s.contains(','),
    ensures
        specifier_set::read_set(s) == if text::all_in(Class::Space, s) {
            Ok::<Seq<SpecifierSpec>, Seq<char>>(Seq::empty())
        } else {
            match clause::read_clause(s) {
                Some((operator, version)) => Ok(
                    seq![SpecifierSpec { operator, version, prereleases: None }],
                ),
                None => Err(text::trim(s)),
            }
        },
{
    let marks = specifier_set::comma();
    assert forall|i: int| 0 <= i < s.len() implies !marks.contains(#[trigger] s[i]) by {
        assert(s.contains(s[i]));
    }
    text::lemma_first_of(s, marks, s.len() as int);
    let one = text::split(s, marks);
    assert(one =~= seq![s]);
    let none = Seq::<Seq<char>>::empty();
    assert(one.drop_last() =~= none);
    assert(specifier_set::read_all(none) == Ok::<Seq<SpecifierSpec>, Seq<char>>(Seq::empty()));
    let t = text::trim(s);
    text::lemma_trim_ends(s);
    if text::all_in(Class::Space, s) {
        let e = Seq::<char>::empty();
        spellings::lemma_trim_before(s, e);
        assert(s + e =~= s);
        assert(text::trim(e) =~= e);
    } else {
        let i = choose|i: int| 0 <= i < s.len() && !text::in_class(Class::Space, #[trigger] s[i]);
        lemma_trim_some(s, i);
        assert(text::trim(t) == t);
        if let Some((operator, version)) = clause::read_clause(s) {
            let x = SpecifierSpec { operator, version, prereleases: None };
            assert(Seq::<SpecifierSpec>::empty().push(x) =~= seq![x]);
        }
    }
}

proof fn lemma_trim_some(s: Seq<char>, i: int)
    requires
        0 <= i < s.len(),
        !text::is_space(s[i]),
    ensures
        text::trim(s).len() > 0,
{
    text::lemma_run_all(Class::Space, s);
    let n = text::run(Class::Space, s) as int;
    if i < n {
        assert(text::in_class(Class::Space, text::head(s, n as nat)[i]));
    }
    lemma_trim_end_some(s.skip(n), i - n);
}

proof fn lemma_trim_end_some(s: Seq<char>, i: int)
    requires
        0 <= i < s.len(),
        !text::is_space(s[i]),
    ensures
        text::trim_end(s).len() > 0,
    decreases s.len(),
{
    if text::is_space(s.last()) {
        lemma_trim_end_some(s.drop_last(), i);
    }
}

} // verus!
