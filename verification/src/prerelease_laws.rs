//! Laws of the rules for pre-releases.

use vstd::prelude::*;

use crate::admission_laws;
use crate::canonical;
use crate::clause::Operator;
use crate::grammar::VersionSpec;
use crate::ranking;
use crate::specifier_set::{self, SpecifierSetSpec};
use crate::specifiers::{self, SpecifierSpec};
use crate::version;
use crate::version_laws;

verus! {

/// Whether a text says a version with a letter of a pre-release or a development release.
pub open spec fn says_early(item: Seq<char>) -> bool {
    version::parse_version(item) matches Some(v) && (v.pre is Some || v.dev is Some)
}

/// Whether a text says a version that has neither.
pub open spec fn says_final(item: Seq<char>) -> bool {
    version::parse_version(item) matches Some(v) && v.pre is None && v.dev is None
}

// --- What a specifier admits where nothing is asked for. ---

/// What was set for a specifier holds.
pub proof fn law_policy_set(s: SpecifierSpec, b: bool)
    requires
        s.prereleases == Some(b),
    ensures
        specifiers::policy(s) == Some(b),
{
}

/// Without anything set, a specifier with a version admits pre-releases where its own version
/// is one, except for `!=`, which never does.
pub proof fn law_policy(s: SpecifierSpec, w: VersionSpec)
    requires
        s.prereleases is None,
        version::parse_version(s.version) == Some(w),
    ensures
        specifiers::policy(s) == Some(
            s.operator != Operator::NotEqual && (w.pre is Some || w.dev is Some),
        ),
{
    admission_laws::lemma_no_pattern(s.version);
}

/// Without anything set, patterns admit no pre-releases.
pub proof fn law_policy_pattern(s: SpecifierSpec, base: Seq<char>)
    requires
        s.prereleases is None,
        s.operator == Operator::Equal || s.operator == Operator::NotEqual,
        s.version == base + ".*"@,
    ensures
        specifiers::policy(s) == Some(false),
{
    reveal_strlit(".*");
    assert(s.version.skip(s.version.len() - 2) =~= ".*"@);
}

/// Nothing is known of `===` with a text that is no version.
pub proof fn law_policy_arbitrary(s: SpecifierSpec)
    requires
        s.prereleases is None,
        s.operator == Operator::Arbitrary,
        version::parse_version(s.version) is None,
    ensures
        specifiers::policy(s) is None,
{
}

// --- What a specifier contains. ---

/// Refusing pre-releases leaves out exactly the pre-releases and development releases.
pub proof fn law_contains_final(s: SpecifierSpec, item: Seq<char>)
    ensures
        specifiers::contains(s, item, Some(false)) <==> specifiers::contains(s, item, Some(true))
            && !says_early(item),
{
}

/// What is asked for does not depend on what was set, and where nothing is asked for the policy
/// of the specifier holds. Where that is not known, pre-releases are let through.
pub proof fn law_contains_asked(s: SpecifierSpec, item: Seq<char>, set: Option<bool>, asked: bool)
    ensures
        specifiers::contains(SpecifierSpec { prereleases: set, ..s }, item, Some(asked))
            == specifiers::contains(s, item, Some(asked)),
        specifiers::policy(s) == Some(asked) ==> specifiers::contains(s, item, None)
            == specifiers::contains(s, item, Some(asked)),
        specifiers::policy(s) is None ==> specifiers::contains(s, item, None)
            == specifiers::contains(s, item, Some(true)),
{
}

/// A specifier whose own version is a pre-release contains with nothing asked for what it
/// contains with pre-releases asked for, unless it is a `!=`.
pub proof fn law_early_specifier(s: SpecifierSpec, w: VersionSpec, item: Seq<char>)
    requires
        s.prereleases is None,
        s.operator != Operator::NotEqual,
        version::parse_version(s.version) == Some(w),
        w.pre is Some || w.dev is Some,
    ensures
        specifiers::contains(s, item, None) == specifiers::contains(s, item, Some(true)),
{
    law_policy(s, w);
}

/// A specifier whose own version is final contains no pre-releases with nothing asked for.
pub proof fn law_final_specifier(s: SpecifierSpec, w: VersionSpec, item: Seq<char>)
    requires
        s.prereleases is None,
        version::parse_version(s.version) == Some(w),
        w.pre is None && w.dev is None,
    ensures
        specifiers::contains(s, item, None) <==> specifiers::contains(s, item, Some(true))
            && !says_early(item),
{
    law_policy(s, w);
}

/// `==V`, `===V`, and without a local label `<=V`, `>=V` and, with two numbers or more, `~=V`
/// contain `V` itself with nothing asked for; `!=V`, `<V` and `>V` never contain it.
pub proof fn law_contains_itself(op: Operator, w: VersionSpec)
    requires
        version_laws::sound(w),
        w.local is None || op == Operator::Equal || op == Operator::NotEqual || op
            == Operator::Arbitrary,
        op == Operator::Compatible ==> w.release.len() >= 2,
    ensures
        ({
            let t = canonical::render(w);
            let s = SpecifierSpec { operator: op, version: t, prereleases: None };
            specifiers::contains(s, t, None) <==> op != Operator::NotEqual && op != Operator::Below
                && op != Operator::Above
        }),
{
    let t = canonical::render(w);
    let s = SpecifierSpec { operator: op, version: t, prereleases: None };
    version_laws::law_reads_back(w);
    law_policy(s, w);
    admission_laws::law_equals(w, t, w, t);
    admission_laws::law_bounds(w, t, w, t);
    admission_laws::law_below(w, t, w, t);
    admission_laws::law_above(w, t, w, t);
    admission_laws::law_arbitrary(w, t, t);
    ranking::law_total_order(w, w, w);
    if w.local is None {
        assert(admission_laws::unlabelled(w) == w);
        if op == Operator::Compatible {
            admission_laws::law_compatible(w, t, w);
        }
    }
}

// --- Sets. ---

/// What a set admits where nothing is asked for: what was set, or pre-releases where one of its
/// specifiers admits them.
pub proof fn law_set_policy(s: SpecifierSetSpec, i: int)
    ensures
        s.prereleases is Some ==> specifier_set::policy(s) == s.prereleases,
        s.prereleases is None && 0 <= i < s.specs.len() && specifiers::policy(s.specs[i]) == Some(
            true,
        ) ==> specifier_set::policy(s) == Some(true),
        s.prereleases is None && specifier_set::policy(s) == Some(true) ==> exists|j: int|
            0 <= j < s.specs.len() && specifiers::policy(#[trigger] s.specs[j]) == Some(true),
        s.prereleases is None ==> specifier_set::policy(s) != Some(false),
{
}

/// A set contains what all of its specifiers contain. Refusing pre-releases leaves out exactly
/// those. With nothing asked for, pre-releases are refused unless the set admits them.
pub proof fn law_set_contains(s: SpecifierSetSpec, item: Seq<char>)
    ensures
        specifier_set::contains(s, item, Some(true)) <==> forall|i: int|
            0 <= i < s.specs.len() ==> specifiers::contains(#[trigger] s.specs[i], item, Some(true)),
        specifier_set::contains(s, item, Some(false)) <==> specifier_set::contains(
            s,
            item,
            Some(true),
        ) && !says_early(item),
        specifier_set::policy(s) == Some(true) ==> specifier_set::contains(s, item, None)
            == specifier_set::contains(s, item, Some(true)),
        specifier_set::policy(s) != Some(true) ==> specifier_set::contains(s, item, None)
            == specifier_set::contains(s, item, Some(false)),
{
    if specifier_set::contains(s, item, Some(true)) {
        assert forall|i: int| 0 <= i < s.specs.len() implies specifiers::contains(
            #[trigger] s.specs[i],
            item,
            Some(true),
        ) by {
            assert(specifiers::matches_text(s.specs[i], item));
        }
    }
    if forall|i: int|
        0 <= i < s.specs.len() ==> specifiers::contains(#[trigger] s.specs[i], item, Some(true)) {
        assert forall|i: int| 0 <= i < s.specs.len() implies specifiers::matches_text(
            #[trigger] s.specs[i],
            item,
        ) by {
            assert(specifiers::contains(s.specs[i], item, Some(true)));
        }
    }
}

// --- Filters. ---

proof fn lemma_filter_twice<T>(
    l: Seq<T>,
    p: spec_fn(T) -> bool,
    q: spec_fn(T) -> bool,
    r: spec_fn(T) -> bool,
)
    requires
        forall|x: T| #[trigger] r(x) <==> p(x) && q(x),
    ensures
        l.filter(p).filter(q) == l.filter(r),
    decreases l.len(),
{
    reveal(Seq::filter);
    if l.len() > 0 {
        lemma_filter_twice(l.drop_last(), p, q, r);
        let x = l.last();
        assert(r(x) <==> p(x) && q(x));
        let d = l.drop_last().filter(p);
        if p(x) {
            assert(d.push(x).drop_last() =~= d);
            assert(d.push(x).last() == x);
        }
    }
}

proof fn lemma_filter_same<T>(l: Seq<T>, p: spec_fn(T) -> bool, q: spec_fn(T) -> bool)
    requires
        forall|x: T| l.contains(x) ==> (#[trigger] p(x) <==> q(x)),
    ensures
        l.filter(p) == l.filter(q),
    decreases l.len(),
{
    reveal(Seq::filter);
    if l.len() > 0 {
        let d = l.drop_last();
        assert forall|x: T| d.contains(x) implies (#[trigger] p(x) <==> q(x)) by {
            let i = choose|i: int| 0 <= i < d.len() && d[i] == x;
            assert(l[i] == x);
        }
        lemma_filter_same(d, p, q);
        assert(l.contains(l.last()));
        assert(p(l.last()) <==> q(l.last()));
    }
}

/// Items that are no pre-releases.
proof fn lemma_without(l: Seq<Seq<char>>)
    ensures
        specifiers::without_prereleases(l) == l.filter(|x: Seq<char>| !says_early(x)),
{
    lemma_filter_same(
        l,
        |x: Seq<char>| !specifiers::is_prerelease_text(x),
        |x: Seq<char>| !says_early(x),
    );
}

proof fn lemma_first(l: Seq<Seq<char>>)
    ensures
        specifiers::first_final(l) <= l.len(),
        specifiers::first_final(l) < l.len() ==> says_final(l[specifiers::first_final(l) as int]),
        forall|i: int| 0 <= i < specifiers::first_final(l) ==> !says_final(#[trigger] l[i]),
    decreases l.len(),
{
    if l.len() > 0 && !specifiers::is_final_text(l[0]) {
        lemma_first(l.skip(1));
        assert forall|i: int| 0 <= i < specifiers::first_final(l) implies !says_final(
            #[trigger] l[i],
        ) by {
            if i > 0 {
                assert(l[i] == l.skip(1)[i - 1]);
            }
        }
    }
}

/// What is left of matched items with nothing known: all of them where none says a final
/// release. Otherwise what comes before the first that does is left out, and so are
/// pre-releases after it.
pub proof fn law_nothing_known(matched: Seq<Seq<char>>, n: int)
    requires
        0 <= n <= matched.len(),
        forall|i: int| 0 <= i < n ==> !says_final(#[trigger] matched[i]),
        n < matched.len() ==> says_final(matched[n]),
    ensures
        specifiers::apply_policy(matched, None) == if n == matched.len() {
            matched
        } else {
            matched.skip(n).filter(|x: Seq<char>| !says_early(x))
        },
{
    lemma_first(matched);
    let m = specifiers::first_final(matched) as int;
    if m < n {
        assert(!says_final(matched[m]));
    } else if n < m {
        assert(!says_final(matched[n]));
    }
    lemma_without(matched.skip(n));
}

/// Filtering by a specifier with pre-releases let through or refused leaves the items that it
/// contains under that policy, in their order.
pub proof fn law_filter_asked(s: SpecifierSpec, items: Seq<Seq<char>>, asked: bool)
    ensures
        specifiers::filtered(s, items, Some(asked)) == items.filter(
            |x: Seq<char>| specifiers::contains(s, x, Some(asked)),
        ),
{
    let p = |x: Seq<char>| specifiers::contains(s, x, Some(true));
    if !asked {
        lemma_without(items.filter(p));
        lemma_filter_twice(
            items,
            p,
            |x: Seq<char>| !says_early(x),
            |x: Seq<char>| specifiers::contains(s, x, Some(false)),
        );
    }
}

/// Filtering by a specifier with nothing asked for: what was set holds; a specifier that admits
/// pre-releases lets them through; another lets them through only where no final release
/// satisfies it.
pub proof fn law_filter_default(s: SpecifierSpec, items: Seq<Seq<char>>)
    ensures
        ({
            let let_through = specifiers::filtered(s, items, Some(true));
            let refused = specifiers::filtered(s, items, Some(false));
            let some_final = exists|i: int|
                0 <= i < let_through.len() && says_final(#[trigger] let_through[i]);
            specifiers::filtered(s, items, None) == match s.prereleases {
                Some(b) => specifiers::filtered(s, items, Some(b)),
                None => if specifiers::policy(s) != Some(true) && some_final {
                    refused
                } else {
                    let_through
                },
            }
        }),
{
    law_filter_asked(s, items, true);
    law_filter_asked(s, items, false);
    let p = |x: Seq<char>| specifiers::contains(s, x, Some(true));
    let m = items.filter(p);
    if s.prereleases is None && specifiers::policy(s) != Some(true) {
        lemma_first(m);
        let n = specifiers::first_final(m) as int;
        law_nothing_known(m, n);
        if n < m.len() {
            let early = |x: Seq<char>| !says_early(x);
            assert(says_final(m[n]));
            assert forall|i: int| 0 <= i < n implies !early(#[trigger] m[i]) by {
                items.lemma_filter_pred(p, i);
                assert(p(m[i]));
                assert(!says_final(m[i]));
            }
            lemma_filter_skip(m, n, early);
            lemma_without(m);
        }
    }
}

proof fn lemma_filter_skip<T>(l: Seq<T>, n: int, p: spec_fn(T) -> bool)
    requires
        0 <= n <= l.len(),
        forall|i: int| 0 <= i < n ==> !p(#[trigger] l[i]),
    ensures
        l.skip(n).filter(p) == l.filter(p),
    decreases l.len(),
{
    reveal(Seq::filter);
    if n == l.len() {
        if n > 0 {
            lemma_filter_skip(l.drop_last(), n - 1, p);
            assert(!p(l[n - 1]));
            assert(l.drop_last().skip(n - 1) =~= l.skip(n));
        } else {
            assert(l.skip(0) =~= l);
        }
    } else {
        let d = l.drop_last();
        lemma_filter_skip(d, n, p);
        assert(l.skip(n).drop_last() =~= d.skip(n));
        assert(l.skip(n).last() == l.last());
    }
}

/// Filtering by a set with pre-releases let through or refused leaves the items that it
/// contains under that policy, in their order.
pub proof fn law_set_filter_asked(s: SpecifierSetSpec, items: Seq<Seq<char>>, asked: bool)
    ensures
        specifier_set::filtered(s, items, Some(asked)) == items.filter(
            |x: Seq<char>| specifier_set::contains(s, x, Some(asked)),
        ),
{
    let p = |x: Seq<char>| specifier_set::matches_all(s, x);
    if asked {
        lemma_filter_same(items, p, |x: Seq<char>| specifier_set::contains(s, x, Some(true)));
    } else {
        lemma_without(items.filter(p));
        lemma_filter_twice(
            items,
            p,
            |x: Seq<char>| !says_early(x),
            |x: Seq<char>| specifier_set::contains(s, x, Some(false)),
        );
    }
}

/// Filtering by a set with nothing asked for: its policy holds where it has one. Otherwise
/// everything that satisfies the set is let through where no final release does, and else what
/// comes before the first final release is left out, and so are pre-releases after it.
pub proof fn law_set_filter_default(s: SpecifierSetSpec, items: Seq<Seq<char>>, n: int)
    requires
        ({
            let l = specifier_set::filtered(s, items, Some(true));
            &&& 0 <= n <= l.len()
            &&& forall|i: int| 0 <= i < n ==> !says_final(#[trigger] l[i])
            &&& n < l.len() ==> says_final(l[n])
        }),
    ensures
        ({
            let l = specifier_set::filtered(s, items, Some(true));
            specifier_set::filtered(s, items, None) == match specifier_set::policy(s) {
                Some(b) => specifier_set::filtered(s, items, Some(b)),
                None => if n == l.len() {
                    l
                } else {
                    l.skip(n).filter(|x: Seq<char>| !says_early(x))
                },
            }
        }),
{
    law_nothing_known(items.filter(|x: Seq<char>| specifier_set::matches_all(s, x)), n);
}

} // verus!
