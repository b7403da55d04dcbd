//! Laws of what markers say of environments.

use vstd::prelude::*;

use crate::admission_laws;
use crate::canonical;
use crate::clause::{self, Operator};
use crate::evaluation::{self, Failure, Value};
use crate::grammar::{self, VersionSpec};
use crate::marker_grammar::{self, MarkerOp, Operand, Tree};
use crate::markers::{self, EnvValue, EvaluateContext};
use crate::names;
use crate::order;
use crate::order_laws;
use crate::outside;
use crate::ranking;
use crate::specifiers::SpecifierSpec;
use crate::text;
use crate::version;
use crate::version_laws;

verus! {

/// What a marker of one comparison says of an environment.
pub open spec fn says(
    lhs: Operand,
    op: MarkerOp,
    rhs: Operand,
    env: spec_fn(Seq<char>) -> Option<Value>,
) -> Result<bool, Failure> {
    evaluation::eval_list(seq![Tree::Item { lhs, op, rhs }], env)
}

proof fn lemma_says(
    lhs: Operand,
    op: MarkerOp,
    rhs: Operand,
    env: spec_fn(Seq<char>) -> Option<Value>,
)
    ensures
        says(lhs, op, rhs, env) == evaluation::eval_item(lhs, op, rhs, env),
{
    let l = seq![Tree::Item { lhs, op, rhs }];
    let none = Seq::<Tree>::empty();
    assert(l.drop_last() =~= none);
    assert(l.last() == Tree::Item { lhs, op, rhs });
    assert(evaluation::eval_parts(none, env) == Ok::<(bool, bool), Failure>((false, true)));
}

// --- Operands. ---

/// A variable that the environment does not have is an error that names it, on either side.
pub proof fn law_missing(
    key: Seq<char>,
    op: MarkerOp,
    t: Seq<char>,
    env: spec_fn(Seq<char>) -> Option<Value>,
)
    requires
        env(key) is None,
    ensures
        says(Operand::Variable(key), op, Operand::Value(t), env) == Err::<bool, Failure>(
            Failure::UndefinedEnvironmentName(key),
        ),
        says(Operand::Value(t), op, Operand::Variable(key), env) == Err::<bool, Failure>(
            Failure::UndefinedEnvironmentName(key),
        ),
{
    lemma_says(Operand::Variable(key), op, Operand::Value(t), env);
    lemma_says(Operand::Value(t), op, Operand::Variable(key), env);
}

/// Of two variables the left one is looked up, and the right one stands for its name. Of two
/// texts the right one is looked up.
pub proof fn law_operands(
    s: Seq<char>,
    op: MarkerOp,
    t: Seq<char>,
    env: spec_fn(Seq<char>) -> Option<Value>,
)
    ensures
        says(Operand::Variable(s), op, Operand::Variable(t), env) == says(
            Operand::Variable(s),
            op,
            Operand::Value(t),
            env,
        ),
        says(Operand::Value(s), op, Operand::Value(t), env) == says(
            Operand::Value(s),
            op,
            Operand::Variable(t),
            env,
        ),
{
    lemma_says(Operand::Variable(s), op, Operand::Variable(t), env);
    lemma_says(Operand::Variable(s), op, Operand::Value(t), env);
    lemma_says(Operand::Value(s), op, Operand::Value(t), env);
    lemma_says(Operand::Value(s), op, Operand::Variable(t), env);
}

// --- Variables that hold versions. ---

/// The variables that hold versions.
pub open spec fn holds_version(key: Seq<char>) -> bool {
    ||| key == "python_version"@
    ||| key == "python_full_version"@
    ||| key == "implementation_version"@
    ||| key == "platform_release"@
}

/// The variables that hold sets of names.
pub open spec fn holds_names(key: Seq<char>) -> bool {
    key == "extras"@ || key == "dependency_groups"@
}

proof fn lemma_keys(key: Seq<char>)
    ensures
        evaluation::is_version_key(key) <==> holds_version(key),
        evaluation::is_set_key(key) <==> holds_names(key),
        holds_version(key) ==> !holds_names(key),
        key == "extra"@ ==> !holds_version(key) && !holds_names(key),
{
    reveal_strlit("python_version");
    reveal_strlit("python_full_version");
    reveal_strlit("implementation_version");
    reveal_strlit("platform_release");
    reveal_strlit("extras");
    reveal_strlit("extra");
    reveal_strlit("dependency_groups");
    assert("python_version"@.len() == 14);
    assert("python_full_version"@.len() == 19);
    assert("implementation_version"@.len() == 22);
    assert("platform_release"@.len() == 16);
    assert("extras"@.len() == 6);
    assert("extra"@.len() == 5);
    assert("dependency_groups"@.len() == 17);
}

/// The specifier that an operator and the text of a version make.
proof fn lemma_specifier(o: Operator, w: VersionSpec)
    requires
        version_laws::sound(w),
        o != Operator::Arbitrary,
        w.local is None || o == Operator::Equal || o == Operator::NotEqual,
        o == Operator::Compatible ==> w.release.len() >= 2,
    ensures
        evaluation::specifier_of(MarkerOp::Version(o), canonical::render(w)) == Some(
            SpecifierSpec { operator: o, version: canonical::render(w), prereleases: None },
        ),
{
    let none = Seq::<char>::empty();
    let t = canonical::render(w);
    admission_laws::law_specifier(o, none, none, w, none);
    assert(none + (o.spelling() + none + t) + none =~= o.spelling() + t);
}

/// A variable that holds a version is compared with the text of a version as versions are, and
/// pre-releases are let through: the comparison holds where the specifier that the operator and
/// the text make admits what the variable says. The same goes for a text on the left and a
/// version on the right that the variable gives.
pub proof fn law_version_specifier(
    key: Seq<char>,
    a: Seq<char>,
    o: Operator,
    w: VersionSpec,
    env: spec_fn(Seq<char>) -> Option<Value>,
)
    requires
        holds_version(key),
        version_laws::sound(w),
        o != Operator::Arbitrary,
        w.local is None || o == Operator::Equal || o == Operator::NotEqual,
        o == Operator::Compatible ==> w.release.len() >= 2,
    ensures
        env(key) == Some(Value::Text(a)) ==> says(
            Operand::Variable(key),
            MarkerOp::Version(o),
            Operand::Value(canonical::render(w)),
            env,
        ) == Ok::<bool, Failure>(admission_laws::admitted(o, a, canonical::render(w))),
        env(key) == Some(Value::Text(canonical::render(w))) ==> says(
            Operand::Value(a),
            MarkerOp::Version(o),
            Operand::Variable(key),
            env,
        ) == Ok::<bool, Failure>(admission_laws::admitted(o, a, canonical::render(w))),
{
    let t = canonical::render(w);
    let op = MarkerOp::Version(o);
    lemma_keys(key);
    lemma_specifier(o, w);
    lemma_says(Operand::Variable(key), op, Operand::Value(t), env);
    lemma_says(Operand::Value(a), op, Operand::Variable(key), env);
}

/// How a variable that holds a version compares with a version: by the order of versions. `<`
/// leaves out pre-releases of a version that is none, and `>` post-releases of a version that
/// is none.
pub proof fn law_version_comparison(
    key: Seq<char>,
    a: Seq<char>,
    v: VersionSpec,
    w: VersionSpec,
    env: spec_fn(Seq<char>) -> Option<Value>,
)
    requires
        holds_version(key),
        env(key) == Some(Value::Text(a)),
        version::parse_version(a) == Some(v),
        v.local is None,
        version_laws::sound(w),
        w.local is None,
    ensures
        ({
            let b = Operand::Value(canonical::render(w));
            let of = |o: Operator| says(Operand::Variable(key), MarkerOp::Version(o), b, env);
            let same = order_laws::same_numbers(v, w);
            &&& of(Operator::AtLeast) == Ok::<bool, Failure>(ranking::compare(v, w) >= 0)
            &&& of(Operator::AtMost) == Ok::<bool, Failure>(ranking::compare(v, w) <= 0)
            &&& of(Operator::Equal) == Ok::<bool, Failure>(ranking::compare(v, w) == 0)
            &&& of(Operator::NotEqual) == Ok::<bool, Failure>(ranking::compare(v, w) != 0)
            &&& of(Operator::Below) == Ok::<bool, Failure>(
                ranking::compare(v, w) < 0 && !(same && (v.pre is Some || v.dev is Some) && w.pre is None
                    && w.dev is None),
            )
            &&& of(Operator::Above) == Ok::<bool, Failure>(
                ranking::compare(v, w) > 0 && !(same && v.post is Some && w.post is None),
            )
            &&& w.release.len() >= 2 ==> of(Operator::Compatible) == Ok::<bool, Failure>(
                ranking::compare(v, w) >= 0 && v.epoch == w.epoch && (forall|i: int|
                    0 <= i < w.release.len() - 1 ==> #[trigger] order_laws::number_at(v.release, i)
                        == w.release[i]),
            )
        }),
{
    let t = canonical::render(w);
    version_laws::law_reads_back(w);
    assert(admission_laws::unlabelled(v) == v);
    law_version_specifier(key, a, Operator::AtLeast, w, env);
    law_version_specifier(key, a, Operator::AtMost, w, env);
    law_version_specifier(key, a, Operator::Equal, w, env);
    law_version_specifier(key, a, Operator::NotEqual, w, env);
    law_version_specifier(key, a, Operator::Below, w, env);
    law_version_specifier(key, a, Operator::Above, w, env);
    admission_laws::law_equals(v, a, w, t);
    admission_laws::law_bounds(v, a, w, t);
    admission_laws::law_below(v, a, w, t);
    admission_laws::law_above(v, a, w, t);
    order_laws::law_equal(v, w);
    if w.release.len() >= 2 {
        law_version_specifier(key, a, Operator::Compatible, w, env);
        admission_laws::law_compatible(v, a, w);
    }
}

/// What the variable says is no version: no comparison with a version holds.
pub proof fn law_no_version(
    key: Seq<char>,
    a: Seq<char>,
    o: Operator,
    w: VersionSpec,
    env: spec_fn(Seq<char>) -> Option<Value>,
)
    requires
        holds_version(key),
        env(key) == Some(Value::Text(a)),
        version::parse_version(a) is None,
        version_laws::sound(w),
        o != Operator::Arbitrary,
        w.local is None || o == Operator::Equal || o == Operator::NotEqual,
        o == Operator::Compatible ==> w.release.len() >= 2,
    ensures
        says(
            Operand::Variable(key),
            MarkerOp::Version(o),
            Operand::Value(canonical::render(w)),
            env,
        ) == Ok::<bool, Failure>(false),
{
    law_version_specifier(key, a, o, w, env);
}

/// The specifier that an operator and a text make.
proof fn lemma_specifier_text(
    o: Operator,
    before: Seq<char>,
    t: Seq<char>,
    w: VersionSpec,
    behind: Seq<char>,
)
    requires
        text::all_in(text::Class::Space, before),
        text::all_in(text::Class::Space, behind),
        grammar::read_version(t) == Some(w),
        o != Operator::Arbitrary,
        w.local is None || o == Operator::Equal || o == Operator::NotEqual,
        o == Operator::Compatible ==> w.release.len() >= 2,
    ensures
        evaluation::specifier_of(MarkerOp::Version(o), before + t + behind) == Some(
            SpecifierSpec { operator: o, version: t, prereleases: None },
        ),
{
    let none = Seq::<char>::empty();
    admission_laws::law_specifier_text(o, none, before, t, w, behind);
    assert(none + (o.spelling() + before + t) + behind =~= o.spelling() + (before + t + behind));
}

/// The same holds of every text that says a version, however it is spelled and with white space
/// around it.
pub proof fn law_version_text(
    key: Seq<char>,
    a: Seq<char>,
    o: Operator,
    before: Seq<char>,
    t: Seq<char>,
    w: VersionSpec,
    behind: Seq<char>,
    env: spec_fn(Seq<char>) -> Option<Value>,
)
    requires
        holds_version(key),
        text::all_in(text::Class::Space, before),
        text::all_in(text::Class::Space, behind),
        grammar::read_version(t) == Some(w),
        o != Operator::Arbitrary,
        w.local is None || o == Operator::Equal || o == Operator::NotEqual,
        o == Operator::Compatible ==> w.release.len() >= 2,
    ensures
        env(key) == Some(Value::Text(a)) ==> says(
            Operand::Variable(key),
            MarkerOp::Version(o),
            Operand::Value(before + t + behind),
            env,
        ) == Ok::<bool, Failure>(admission_laws::admitted(o, a, t)),
        env(key) == Some(Value::Text(before + t + behind)) ==> says(
            Operand::Value(a),
            MarkerOp::Version(o),
            Operand::Variable(key),
            env,
        ) == Ok::<bool, Failure>(admission_laws::admitted(o, a, t)),
{
    let u = before + t + behind;
    let op = MarkerOp::Version(o);
    lemma_keys(key);
    lemma_specifier_text(o, before, t, w, behind);
    lemma_says(Operand::Variable(key), op, Operand::Value(u), env);
    lemma_says(Operand::Value(a), op, Operand::Variable(key), env);
}

/// A variable that holds a version may be compared with a pattern: `==V.*` holds of the versions
/// with the epoch of `V` whose release begins with the numbers of `V`, and `!=V.*` of the other
/// versions.
pub proof fn law_version_pattern(
    key: Seq<char>,
    a: Seq<char>,
    v: VersionSpec,
    w: VersionSpec,
    env: spec_fn(Seq<char>) -> Option<Value>,
)
    requires
        holds_version(key),
        env(key) == Some(Value::Text(a)),
        version::parse_version(a) == Some(v),
        version_laws::sound(w),
        w.pre is None && w.post is None && w.dev is None && w.local is None,
    ensures
        ({
            let pattern = Operand::Value(canonical::render(w) + ".*"@);
            let of = |o: Operator| says(Operand::Variable(key), MarkerOp::Version(o), pattern, env);
            let begins = v.epoch == w.epoch && (forall|i: int|
                0 <= i < w.release.len() ==> #[trigger] order_laws::number_at(v.release, i)
                    == w.release[i]);
            &&& of(Operator::Equal) == Ok::<bool, Failure>(begins)
            &&& of(Operator::NotEqual) == Ok::<bool, Failure>(!begins)
        }),
{
    let none = Seq::<char>::empty();
    let b = canonical::render(w);
    let t = b + ".*"@;
    lemma_keys(key);
    version_laws::law_reads_back(w);
    admission_laws::law_pattern_specifier(Operator::Equal, none, w);
    admission_laws::law_pattern_specifier(Operator::NotEqual, none, w);
    assert(Operator::Equal.spelling() + none + t =~= Operator::Equal.spelling() + t);
    assert(Operator::NotEqual.spelling() + none + t =~= Operator::NotEqual.spelling() + t);
    admission_laws::law_pattern(v, a, w, b);
    lemma_says(
        Operand::Variable(key),
        MarkerOp::Version(Operator::Equal),
        Operand::Value(t),
        env,
    );
    lemma_says(
        Operand::Variable(key),
        MarkerOp::Version(Operator::NotEqual),
        Operand::Value(t),
        env,
    );
}

/// `===` between a variable that holds a version and a text asks whether the text is the
/// canonical text of the version.
pub proof fn law_version_arbitrary(
    key: Seq<char>,
    a: Seq<char>,
    t: Seq<char>,
    env: spec_fn(Seq<char>) -> Option<Value>,
)
    requires
        holds_version(key),
        env(key) == Some(Value::Text(a)),
        t.len() > 0,
        forall|i: int|
            0 <= i < t.len() ==> !text::is_space(#[trigger] t[i]) && t[i] != ';' && t[i] != ')',
    ensures
        says(
            Operand::Variable(key),
            MarkerOp::Version(Operator::Arbitrary),
            Operand::Value(t),
            env,
        ) == Ok::<bool, Failure>(admission_laws::admitted(Operator::Arbitrary, a, t)),
{
    let none = Seq::<char>::empty();
    lemma_keys(key);
    admission_laws::law_arbitrary_specifier(none, t);
    assert("==="@ + none + t =~= "==="@ + t);
    lemma_says(
        Operand::Variable(key),
        MarkerOp::Version(Operator::Arbitrary),
        Operand::Value(t),
        env,
    );
}

// --- Texts. ---

/// Whether a text stands somewhere in another.
pub open spec fn stands_in(part: Seq<char>, s: Seq<char>) -> bool {
    exists|a: Seq<char>, b: Seq<char>| #[trigger] (a + part + b) == s
}

proof fn lemma_stands_in(part: Seq<char>, s: Seq<char>)
    ensures
        text::contains_text(s, part) <==> stands_in(part, s),
{
    if text::contains_text(s, part) {
        let i = choose|i: int|
            0 <= i <= s.len() && text::starts_with(#[trigger] s.skip(i), part);
        let a = s.take(i);
        let b = s.skip(i).skip(part.len() as int);
        assert(s.skip(i) =~= part + b);
        assert(a + part + b =~= s);
    }
    if stands_in(part, s) {
        let (a, b) = choose|a: Seq<char>, b: Seq<char>| #[trigger] (a + part + b) == s;
        let u = s.skip(a.len() as int);
        assert(u.take(part.len() as int) =~= part);
        assert(text::starts_with(u, part));
    }
}

/// What each operator says of two texts that are compared as texts.
pub open spec fn as_texts(a: Seq<char>, op: MarkerOp, b: Seq<char>, r: Result<bool, Failure>) -> bool {
    match op {
        MarkerOp::In => r == Ok::<bool, Failure>(stands_in(a, b)),
        MarkerOp::NotIn => r == Ok::<bool, Failure>(!stands_in(a, b)),
        MarkerOp::Version(Operator::Equal) => r == Ok::<bool, Failure>(a == b),
        MarkerOp::Version(Operator::NotEqual) => r == Ok::<bool, Failure>(a != b),
        MarkerOp::Version(Operator::Below) => r == Ok::<bool, Failure>(
            order::compare_text(a, b) < 0,
        ),
        MarkerOp::Version(Operator::AtMost) => r == Ok::<bool, Failure>(
            order::compare_text(a, b) < 0 || a == b,
        ),
        MarkerOp::Version(Operator::Above) => r == Ok::<bool, Failure>(
            order::compare_text(b, a) < 0,
        ),
        MarkerOp::Version(Operator::AtLeast) => r == Ok::<bool, Failure>(
            order::compare_text(b, a) < 0 || a == b,
        ),
        MarkerOp::Version(Operator::Compatible) | MarkerOp::Version(Operator::Arbitrary) => r
            matches Err(Failure::UndefinedComparison(_)),
    }
}

proof fn lemma_as_texts(a: Seq<char>, op: MarkerOp, b: Seq<char>, key: Seq<char>)
    requires
        !evaluation::is_version_key(key) || evaluation::specifier_of(op, b) is None,
    ensures
        as_texts(a, op, b, evaluation::compare_texts(a, op, b, key)),
{
    lemma_stands_in(a, b);
    order::lemma_text_order(a, b, a);
    order::lemma_text_order(b, a, b);
}

/// A variable that holds neither versions nor sets is compared as text, with a text on either
/// side of it.
pub proof fn law_text_comparison(
    key: Seq<char>,
    a: Seq<char>,
    op: MarkerOp,
    b: Seq<char>,
    env: spec_fn(Seq<char>) -> Option<Value>,
)
    requires
        !holds_version(key),
        !holds_names(key),
    ensures
        env(key) == Some(Value::Text(a)) ==> as_texts(
            a,
            op,
            b,
            says(Operand::Variable(key), op, Operand::Value(b), env),
        ),
        env(key) == Some(Value::Text(b)) ==> as_texts(
            a,
            op,
            b,
            says(Operand::Value(a), op, Operand::Variable(key), env),
        ),
{
    lemma_keys(key);
    lemma_as_texts(a, op, b, key);
    lemma_says(Operand::Variable(key), op, Operand::Value(b), env);
    lemma_says(Operand::Value(a), op, Operand::Variable(key), env);
}

/// A text and a variable that holds a set of names, but is given as a text, are compared as
/// normalized names.
pub proof fn law_name_comparison(
    key: Seq<char>,
    a: Seq<char>,
    op: MarkerOp,
    b: Seq<char>,
    env: spec_fn(Seq<char>) -> Option<Value>,
)
    requires
        holds_names(key),
    ensures
        env(key) == Some(Value::Text(a)) ==> as_texts(
            names::canonical_name(a),
            op,
            names::canonical_name(b),
            says(Operand::Variable(key), op, Operand::Value(b), env),
        ),
        env(key) == Some(Value::Text(b)) ==> as_texts(
            names::canonical_name(a),
            op,
            names::canonical_name(b),
            says(Operand::Value(a), op, Operand::Variable(key), env),
        ),
{
    lemma_keys(key);
    let (x, y) = (names::canonical_name(a), names::canonical_name(b));
    lemma_as_texts(x, op, y, key);
    lemma_says(Operand::Variable(key), op, Operand::Value(b), env);
    lemma_says(Operand::Value(a), op, Operand::Variable(key), env);
}

/// `in` and `not in` compare as text whatever the variable holds, and so do the other operators
/// where the right side is neither a version nor a pattern.
pub proof fn law_version_as_text(
    key: Seq<char>,
    a: Seq<char>,
    op: MarkerOp,
    b: Seq<char>,
    env: spec_fn(Seq<char>) -> Option<Value>,
)
    requires
        holds_version(key),
        op == MarkerOp::In || op == MarkerOp::NotIn || {
            &&& op != MarkerOp::Version(Operator::Arbitrary)
            &&& b.len() > 0
            &&& b[0] != '='
            &&& grammar::read_version(text::trim(b)) is None
            &&& !text::ends_with(text::trim(b), ".*"@)
        },
    ensures
        env(key) == Some(Value::Text(a)) ==> as_texts(
            a,
            op,
            b,
            says(Operand::Variable(key), op, Operand::Value(b), env),
        ),
        env(key) == Some(Value::Text(b)) ==> as_texts(
            a,
            op,
            b,
            says(Operand::Value(a), op, Operand::Variable(key), env),
        ),
{
    lemma_keys(key);
    lemma_no_specifier(op, b);
    lemma_as_texts(a, op, b, key);
    lemma_says(Operand::Variable(key), op, Operand::Value(b), env);
    lemma_says(Operand::Value(a), op, Operand::Variable(key), env);
}

proof fn lemma_no_specifier(op: MarkerOp, b: Seq<char>)
    requires
        op == MarkerOp::In || op == MarkerOp::NotIn || {
            &&& op != MarkerOp::Version(Operator::Arbitrary)
            &&& b.len() > 0
            &&& b[0] != '='
            &&& grammar::read_version(text::trim(b)) is None
            &&& !text::ends_with(text::trim(b), ".*"@)
        },
    ensures
        evaluation::specifier_of(op, b) is None,
{
    let o = op.spelling();
    let s = o + b;
    clause::lemma_spellings();
    reveal_strlit("in");
    reveal_strlit("not in");
    let u = text::trim(s);
    match op {
        MarkerOp::Version(x) => {
            if clause::read_clause(s) is Some {
                clause::lemma_operator_at(x, b);
                lemma_trim_head(o, b);
                let c = text::trim_end(b);
                if c.len() > 0 {
                    text::lemma_trim_end(b);
                    assert(c[0] == b[0]);
                    clause::lemma_operator_at(x, c);
                } else {
                    assert(u =~= o);
                    lemma_bare(x);
                }
                assert(text::after(u, o.len()) =~= c);
                clause::law_clause_version(s);
                lemma_trim_both(b);
            }
        },
        _ => {
            lemma_trim_head(o, b);
            assert(u[0] == 'i' || u[0] == 'n');
            if let Some(x) = clause::operator_at(u) {
                assert(text::starts_with(u, x.spelling()));
                assert(u.take(x.spelling().len() as int)[0] == u[0]);
            }
        },
    }
}

/// An operator alone is no specifier.
proof fn lemma_bare(x: Operator)
    requires
        x != Operator::Arbitrary,
    ensures
        clause::read_clause(x.spelling()) is None,
{
    clause::lemma_spellings();
    let o = x.spelling();
    if clause::read_clause(o) is Some {
        clause::lemma_clause_chars(o);
        text::lemma_trim_none(o);
        let (y, t) = clause::read_clause(o).unwrap();
        lemma_bare_operator(x);
        assert(text::after(o, o.len()) =~= Seq::<char>::empty());
        assert(t.len() <= 0) by {
            text::lemma_trim_ends(text::after(o, o.len()));
        }
    }
}

proof fn lemma_bare_operator(x: Operator)
    requires
        x != Operator::Arbitrary,
    ensures
        clause::operator_at(x.spelling()) == Some(x),
{
    let o = x.spelling();
    let s = o + seq!['1'];
    clause::lemma_operator_at(x, seq!['1']);
    clause::lemma_operator_head(s);
    assert(text::head(s, o.len()) =~= o);
}

proof fn lemma_trim_head(o: Seq<char>, b: Seq<char>)
    requires
        o.len() > 0,
        !text::is_space(o[0]),
        !text::is_space(o.last()),
    ensures
        text::trim(o + b) == o + text::trim_end(b),
    decreases b.len(),
{
    let s = o + b;
    assert(text::run(text::Class::Space, s) == 0);
    assert(s.skip(0) =~= s);
    lemma_trim_end_head(o, b);
}

proof fn lemma_trim_end_head(o: Seq<char>, b: Seq<char>)
    requires
        o.len() > 0,
        !text::is_space(o.last()),
    ensures
        text::trim_end(o + b) == o + text::trim_end(b),
    decreases b.len(),
{
    let s = o + b;
    if b.len() > 0 {
        assert(s.last() == b.last());
        if text::is_space(b.last()) {
            assert(s.drop_last() =~= o + b.drop_last());
            lemma_trim_end_head(o, b.drop_last());
        }
    } else {
        assert(s =~= o);
        assert(o + text::trim_end(b) =~= o);
    }
}

/// Trimming a text that was trimmed at its end.
proof fn lemma_trim_both(b: Seq<char>)
    ensures
        text::trim(text::trim_end(b)) == text::trim(b),
    decreases b.len(),
{
    if b.len() > 0 && text::is_space(b.last()) {
        let d = b.drop_last();
        lemma_trim_both(d);
        let w = seq![b.last()];
        assert(text::all_in(text::Class::Space, w));
        crate::spellings::lemma_trim_behind(d, w);
        assert(d + w =~= b);
    }
}

// --- Sets. ---

/// A text and a set: `in` and `not in` ask whether the text is a member, `==` never holds, `!=`
/// always does, and the other operators do not apply. In the sets of names members are compared
/// as normalized names. A set cannot stand on the left.
pub proof fn law_sets(
    key: Seq<char>,
    t: Seq<char>,
    op: MarkerOp,
    set: Set<Seq<char>>,
    env: spec_fn(Seq<char>) -> Option<Value>,
)
    requires
        env(key) == Some(Value::Texts(set)),
    ensures
        ({
            let r = says(Operand::Value(t), op, Operand::Variable(key), env);
            let member = if holds_names(key) {
                exists|m: Seq<char>|
                    #![trigger set.contains(m)]
                    set.contains(m) && names::canonical_name(m) == names::canonical_name(t)
            } else {
                set.contains(t)
            };
            match op {
                MarkerOp::In => r == Ok::<bool, Failure>(member),
                MarkerOp::NotIn => r == Ok::<bool, Failure>(!member),
                MarkerOp::Version(Operator::Equal) => r == Ok::<bool, Failure>(false),
                MarkerOp::Version(Operator::NotEqual) => r == Ok::<bool, Failure>(true),
                _ => r matches Err(Failure::UndefinedComparison(_)),
            }
        }),
        says(Operand::Variable(key), op, Operand::Value(t), env) matches Err(
            Failure::UndefinedComparison(_),
        ),
{
    lemma_keys(key);
    lemma_says(Operand::Value(t), op, Operand::Variable(key), env);
    lemma_says(Operand::Variable(key), op, Operand::Value(t), env);
}

// --- `and` and `or`. ---

proof fn lemma_no_or(l: Seq<Tree>, env: spec_fn(Seq<char>) -> Option<Value>)
    requires
        forall|i: int| 0 <= i < l.len() ==> #[trigger] l[i] != Tree::Or,
    ensures
        evaluation::eval_parts(l, env) matches Ok((some, _)) ==> !some,
    decreases l.len(),
{
    if l.len() > 0 {
        let d = l.drop_last();
        assert forall|i: int| 0 <= i < d.len() implies #[trigger] d[i] != Tree::Or by {
            assert(d[i] == l[i]);
        }
        lemma_no_or(d, env);
        assert(l[l.len() - 1] != Tree::Or);
    }
}

/// A group without `or` and one more part behind `and`: both hold. The first that fails makes
/// the whole fail. With the law of `or` this says what every marker says.
pub proof fn law_and(l: Seq<Tree>, t: Tree, env: spec_fn(Seq<char>) -> Option<Value>)
    requires
        forall|i: int| 0 <= i < l.len() ==> #[trigger] l[i] != Tree::Or,
        t is Item || t is List,
    ensures
        evaluation::eval_list(l.push(Tree::And).push(t), env) == match evaluation::eval_list(
            l,
            env,
        ) {
            Err(e) => Err(e),
            Ok(x) => match evaluation::eval_list(seq![t], env) {
                Err(e) => Err(e),
                Ok(y) => Ok(x && y),
            },
        },
{
    let a = l.push(Tree::And);
    let b = a.push(t);
    let none = Seq::<Tree>::empty();
    lemma_no_or(l, env);
    assert(a.drop_last() =~= l);
    assert(b.drop_last() =~= a);
    assert(a.last() == Tree::And && b.last() == t);
    assert(seq![t].drop_last() =~= none);
    assert(seq![t].last() == t);
    assert(evaluation::eval_parts(none, env) == Ok::<(bool, bool), Failure>((false, true)));
    assert(evaluation::eval_parts(a, env) == evaluation::eval_parts(l, env));
    match t {
        Tree::Item { lhs, op, rhs } => {
            assert(evaluation::eval_list(seq![t], env) == evaluation::eval_item(lhs, op, rhs, env));
        },
        Tree::List(inner) => {
            assert(evaluation::eval_list(seq![t], env) == evaluation::eval_list(inner, env));
        },
        _ => {},
    }
}

/// `or` between two markers: one of them holds. Both are evaluated, and the first that fails
/// makes the whole fail.
pub proof fn law_or(a: Seq<Tree>, b: Seq<Tree>, env: spec_fn(Seq<char>) -> Option<Value>)
    ensures
        evaluation::eval_list(a.push(Tree::Or) + b, env) == match evaluation::eval_list(a, env) {
            Err(e) => Err(e),
            Ok(x) => match evaluation::eval_list(b, env) {
                Err(e) => Err(e),
                Ok(y) => Ok(x || y),
            },
        },
{
    crate::marker_laws::law_or(a, b, env);
}

/// A marker in parentheses says what it says without them.
pub proof fn law_group(l: Seq<Tree>, env: spec_fn(Seq<char>) -> Option<Value>)
    ensures
        evaluation::eval_list(seq![Tree::List(l)], env) == evaluation::eval_list(l, env),
{
    crate::marker_laws::law_parentheses(l, env);
}

// --- Environments. ---

/// What an environment of texts gives for a variable: nothing where it has none; for `extra` the
/// normalized name; for a `python_full_version` that ends in `+` a local label; and else what
/// was given.
pub proof fn law_text_environment(m: Map<String, String>, key: Seq<char>)
    ensures
        ({
            let t = outside::value_of(m, key)@;
            markers::text_env(m)(key) == if !outside::has_key(m, key) {
                None::<Value>
            } else if key == "extra"@ {
                Some(Value::Text(names::canonical_name(t)))
            } else if key == "python_full_version"@ && t.len() > 0 && t.last() == '+' {
                Some(Value::Text(t + "local"@))
            } else {
                Some(Value::Text(t))
            }
        }),
{
    lemma_plus(outside::value_of(m, key)@);
}

proof fn lemma_plus(t: Seq<char>)
    ensures
        text::ends_with(t, "+"@) <==> t.len() > 0 && t.last() == '+',
{
    reveal_strlit("+");
    if t.len() > 0 {
        assert(t.skip(t.len() - 1)[0] == t.last());
        if t.last() == '+' {
            assert(t.skip(t.len() - 1) =~= "+"@);
        }
    }
}

/// What an environment of values gives for a variable in a context. What is given comes first;
/// without it there is an empty `extra` for metadata, and empty `extras` and
/// `dependency_groups` for lock files.
pub proof fn law_value_environment(
    m: Map<String, EnvValue>,
    context: EvaluateContext,
    key: Seq<char>,
)
    ensures
        ({
            let r = markers::value_env(m, context)(key);
            if !outside::has_key(m, key) {
                r == if context == EvaluateContext::Metadata && key == "extra"@ {
                    Some(Value::Text(names::canonical_name(Seq::empty())))
                } else if context == EvaluateContext::LockFile && holds_names(key) {
                    Some(Value::Texts(Set::empty()))
                } else {
                    None
                }
            } else {
                match outside::value_of(m, key) {
                    EnvValue::Str(s) => {
                        let t = s@;
                        r == if key == "extra"@ {
                            Some(Value::Text(names::canonical_name(t)))
                        } else if key == "python_full_version"@ && t.len() > 0 && t.last() == '+' {
                            Some(Value::Text(t + "local"@))
                        } else {
                            Some(Value::Text(t))
                        }
                    },
                    EnvValue::StrSet(s) => r matches Some(Value::Texts(set)) && forall|t: Seq<char>| #[trigger]
                        set.contains(t) <==> exists|x: String| #[trigger] s@.contains(x) && x@ == t,
                }
            }
        }),
{
    lemma_keys(key);
    if let EnvValue::Str(s) = outside::value_of(m, key) {
        lemma_plus(s@);
    }
}

proof fn lemma_normal_item(lhs: Operand, op: MarkerOp, rhs: Operand)
    ensures
        marker_grammar::normal_list(seq![Tree::Item { lhs, op, rhs }]) == seq![
            marker_grammar::normal(Tree::Item { lhs, op, rhs }),
        ],
{
    let l = seq![Tree::Item { lhs, op, rhs }];
    let none = Seq::<Tree>::empty();
    assert(l.drop_last() =~= none);
    assert(marker_grammar::normal_list(none) =~= none);
    assert(l.last() == Tree::Item { lhs, op, rhs });
    assert(marker_grammar::normal_list(l) =~= seq![marker_grammar::normal(l.last())]);
}

/// The name in a comparison with `extra`, on either side, and the name that the environment
/// gives are compared in normalized form.
pub proof fn law_extra(m: Map<String, String>, op: MarkerOp, b: Seq<char>)
    requires
        outside::has_key(m, "extra"@),
    ensures
        ({
            let given = names::canonical_name(outside::value_of(m, "extra"@)@);
            let key = Operand::Variable("extra"@);
            let left = Tree::Item { lhs: key, op, rhs: Operand::Value(b) };
            let right = Tree::Item { lhs: Operand::Value(b), op, rhs: key };
            let of = |t: Tree|
                evaluation::eval_list(marker_grammar::normal_list(seq![t]), markers::text_env(m));
            &&& as_texts(given, op, names::canonical_name(b), of(left))
            &&& as_texts(names::canonical_name(b), op, given, of(right))
        }),
{
    let key = "extra"@;
    let env = markers::text_env(m);
    let c = names::canonical_name(b);
    let given = names::canonical_name(outside::value_of(m, key)@);
    lemma_normal_item(Operand::Variable(key), op, Operand::Value(b));
    lemma_normal_item(Operand::Value(b), op, Operand::Variable(key));
    lemma_keys(key);
    law_text_environment(m, key);
    law_text_comparison(key, given, op, c, env);
    law_text_comparison(key, c, op, given, env);
}

} // verus!
