//! Laws of version specifiers and of sets of them.

use vstd::multiset::*;
use vstd::prelude::*;
use vstd::relations::*;
use vstd::seq_lib::*;

use crate::canonical;
use crate::clause::{self, Operator};
use crate::grammar::VersionSpec;
use crate::matching;
use crate::order;
use crate::ranking;
use crate::specifier_set::{self, SpecifierSetSpec};
use crate::specifiers::{self, SpecifierSpec};
use crate::text;
use crate::version;

verus! {

// --- Operators. ---

/// `!=` admits exactly what `==` does not.
pub proof fn law_not_equal(v: VersionSpec, t: Seq<char>)
    ensures
        matching::admits(Operator::NotEqual, v, t) == !matching::admits(Operator::Equal, v, t),
{
}

/// A version is at most or at least another. It is both where `==` admits it, if the other has
/// no local label.
pub proof fn law_bounds(v: VersionSpec, t: Seq<char>)
    requires
        version::parse_version(t) matches Some(w) && w.local is None,
        !text::ends_with(t, clause::star()),
    ensures
        matching::admits(Operator::AtMost, v, t) || matching::admits(Operator::AtLeast, v, t),
        matching::admits(Operator::Equal, v, t) <==> matching::admits(Operator::AtMost, v, t)
            && matching::admits(Operator::AtLeast, v, t),
{
}

/// `<V` and `>V` admit nothing that `==V` admits, and nothing in common.
pub proof fn law_strict(v: VersionSpec, t: Seq<char>)
    requires
        version::parse_version(t) matches Some(w) && w.local is None,
        !text::ends_with(t, clause::star()),
    ensures
        matching::admits(Operator::Below, v, t) ==> !matching::admits(Operator::Equal, v, t),
        matching::admits(Operator::Above, v, t) ==> !matching::admits(Operator::Equal, v, t),
        !(matching::admits(Operator::Below, v, t) && matching::admits(Operator::Above, v, t)),
{
    let w = version::parse_version(t).unwrap();
    let p = matching::public(v);
    ranking::law_total_order(p, w, w);
    if matching::admits(Operator::Equal, v, t) {
        assert(ranking::trimmed(p).release == ranking::trimmed(w).release);
        assert(ranking::same_base(v, w));
        if let Some(l) = v.local {
            ranking::law_local_after(p, l);
            assert(VersionSpec { local: Some(l), ..p } == v);
            ranking::law_total_order(w, p, v);
            ranking::law_total_order(p, w, p);
            ranking::law_total_order(v, w, w);
        } else {
            assert(p == v);
        }
    }
}

/// The pre-releases of a version that is none are not below it, whatever follows them.
pub proof fn law_below_prereleases(v: VersionSpec, t: Seq<char>)
    requires
        version::parse_version(t) matches Some(w) && !version::is_prerelease(w)
            && ranking::same_base(v, w),
        version::is_prerelease(v),
    ensures
        !matching::admits(Operator::Below, v, t),
{
}

/// The post-releases of a version that is none are not above it, and neither are versions with
/// a local label.
pub proof fn law_above_family(v: VersionSpec, t: Seq<char>)
    requires
        version::parse_version(t) matches Some(w) && ranking::same_base(v, w) && (w.post is None
            && v.post is Some || v.local is Some),
    ensures
        !matching::admits(Operator::Above, v, t),
{
}

/// A local label matters to `==` only where the specifier has one.
pub proof fn law_local_ignored(v: VersionSpec, t: Seq<char>)
    requires
        version::parse_version(t) matches Some(w) ==> w.local is None,
    ensures
        matching::equals(v, t) == matching::equals(matching::public(v), t),
{
    assert(matching::public(matching::public(v)) == matching::public(v));
    assert(canonical::public_text(v) == canonical::public_text(matching::public(v)));
}

/// Equal versions are admitted alike, whatever the operator, except by `===`, which goes by the
/// text, and by patterns and compatible releases, for which see the laws of patterns.
pub proof fn law_equal_versions(op: Operator, a: VersionSpec, b: VersionSpec, t: Seq<char>)
    requires
        ranking::compare(a, b) == 0,
        op != Operator::Arbitrary,
        op != Operator::Compatible,
        !text::ends_with(t, clause::star()),
    ensures
        matching::admits(op, a, t) == matching::admits(op, b, t),
{
    ranking::law_total_order(a, b, b);
    let (p, q) = (matching::public(a), matching::public(b));
    assert(ranking::trimmed(a).release == ranking::trimmed(b).release);
    assert(ranking::trimmed(p) == ranking::trimmed(q));
    ranking::law_total_order(p, q, q);
    if let Some(w) = version::parse_version(t) {
        lemma_compare_same(a, b, w);
        lemma_compare_same(p, q, w);
    }
}

proof fn lemma_compare_same(a: VersionSpec, b: VersionSpec, w: VersionSpec)
    requires
        ranking::compare(a, b) == 0,
    ensures
        ranking::compare(a, w) < 0 <==> ranking::compare(b, w) < 0,
        ranking::compare(a, w) == 0 <==> ranking::compare(b, w) == 0,
        ranking::compare(w, a) < 0 <==> ranking::compare(w, b) < 0,
        ranking::compare(w, a) == 0 <==> ranking::compare(w, b) == 0,
{
    ranking::law_total_order(a, b, w);
    ranking::law_total_order(b, a, w);
    ranking::law_total_order(w, a, b);
    ranking::law_total_order(w, b, a);
    ranking::law_total_order(a, w, b);
    ranking::law_total_order(b, w, a);
}

/// Equal specifiers admit the same versions. For `~=` the text of the version matters, and
/// equal specifiers may differ.
pub proof fn law_same_clause(a: SpecifierSpec, b: SpecifierSpec, v: VersionSpec)
    requires
        specifiers::same_clause(a, b),
        a.operator != Operator::Compatible,
    ensures
        matching::admits(a.operator, v, a.version) == matching::admits(b.operator, v, b.version),
{
    let (s, t) = (a.version, b.version);
    reveal_strlit(".*");
    let star = clause::star();
    if a.operator == Operator::Arbitrary {
    } else if text::ends_with(s, star) || text::ends_with(t, star) {
        lemma_canonical_no_star(s);
        lemma_canonical_no_star(t);
    } else {
        version::lemma_parse_valid(s);
        version::lemma_parse_valid(t);
        lemma_canonical_key(s);
        lemma_canonical_key(t);
        if let (Some(w), Some(x)) = (version::parse_version(s), version::parse_version(t)) {
            ranking::law_total_order(w, x, x);
            let p = matching::public(v);
            lemma_compare_same(w, x, v);
            lemma_compare_same(w, x, p);
        }
    }
}

/// The canonical text of a version is read as an equal version; a text that says none stays.
proof fn lemma_canonical_key(s: Seq<char>)
    ensures
        match version::parse_version(s) {
            Some(v) => version::parse_version(canonical::canonicalize(s, true)) matches Some(w)
                && ranking::trimmed(w) == ranking::trimmed(v),
            None => canonical::canonicalize(s, true) == s,
        },
{
    if let Some(v) = version::parse_version(s) {
        version::lemma_parse_valid(s);
        let w = VersionSpec { release: version::trim_keeping_one(v.release), ..v };
        version::lemma_trim_keeping_one(v.release);
        assert forall|i: int| 0 <= i < w.release.len() implies version::small(
            #[trigger] w.release[i],
        ) by {
            assert(version::small(v.release[i]));
        }
        canonical::law_parse_render(w);
    }
}

/// Canonical texts of versions do not end in `.*`.
proof fn lemma_canonical_no_star(s: Seq<char>)
    ensures
        text::ends_with(canonical::canonicalize(s, true), clause::star()) ==> text::ends_with(
            s,
            clause::star(),
        ),
{
    if let Some(v) = version::parse_version(s) {
        version::lemma_parse_valid(s);
        let w = VersionSpec { release: version::trim_keeping_one(v.release), ..v };
        version::lemma_trim_keeping_one(v.release);
        let t = canonical::render(w);
        canonical::lemma_read_render(w);
        clause::lemma_version_chars(t);
        reveal_strlit(".*");
        if text::ends_with(t, clause::star()) {
            assert(t.skip(t.len() - 2)[1] == '*');
            assert(t[t.len() - 1] == '*');
        }
    }
}

// --- Canonical form of versions. ---

/// The canonical text of a text is equal to it as a version, and is its own canonical text.
pub proof fn law_canonicalize(s: Seq<char>, strip_trailing_zero: bool)
    requires
        version::parse_version(s) is Some,
    ensures
        ({
            let v = version::parse_version(s).unwrap();
            let t = canonical::canonicalize(s, strip_trailing_zero);
            &&& version::parse_version(t) matches Some(w) && ranking::compare(v, w) == 0
            &&& canonical::canonicalize(t, strip_trailing_zero) == t
        }),
{
    let v = version::parse_version(s).unwrap();
    version::lemma_parse_valid(s);
    if strip_trailing_zero {
        let w = VersionSpec { release: version::trim_keeping_one(v.release), ..v };
        lemma_canonical_key(s);
        version::lemma_trim_keeping_one(v.release);
        assert forall|i: int| 0 <= i < w.release.len() implies version::small(
            #[trigger] w.release[i],
        ) by {
            assert(version::small(v.release[i]));
        }
        canonical::law_parse_render(w);
        ranking::law_total_order(v, w, w);
    } else {
        canonical::law_parse_render(v);
        ranking::law_total_order(v, v, v);
    }
}

/// Stripping zeros makes canonical texts of equal versions the same.
pub proof fn law_canonicalize_equal(s: Seq<char>, t: Seq<char>)
    requires
        version::parse_version(s) matches Some(v) && version::parse_version(t) matches Some(w)
            && ranking::compare(v, w) == 0,
    ensures
        canonical::canonicalize(s, true) == canonical::canonicalize(t, true),
{
    let v = version::parse_version(s).unwrap();
    let w = version::parse_version(t).unwrap();
    version::lemma_parse_valid(s);
    version::lemma_parse_valid(t);
    ranking::law_total_order(v, w, w);
    assert(ranking::trimmed(v) == ranking::trimmed(w));
    assert(ranking::trimmed(v).release == ranking::trimmed(w).release);
    version::lemma_trim_keeping_one(v.release);
    version::lemma_trim_keeping_one(w.release);
    assert(version::trim_keeping_one(v.release) =~= version::trim_keeping_one(w.release));
}

// --- Sets. ---

/// A set contains what all of its specifiers contain, where pre-releases are admitted.
pub proof fn law_set_is_all(s: SpecifierSetSpec, item: Seq<char>)
    ensures
        specifier_set::contains(s, item, Some(true)) <==> forall|i: int|
            0 <= i < s.specs.len() ==> specifiers::contains(#[trigger] s.specs[i], item, Some(true)),
{
    if specifier_set::contains(s, item, Some(true)) {
        assert forall|i: int| 0 <= i < s.specs.len() implies specifiers::contains(
            #[trigger] s.specs[i],
            item,
            Some(true),
        ) by {
            assert(specifiers::matches_text(s.specs[i], item));
        }
    } else {
        let i = choose|i: int|
            0 <= i < s.specs.len() && !specifiers::matches_text(#[trigger] s.specs[i], item);
        assert(!specifiers::contains(s.specs[i], item, Some(true)));
    }
}

/// The empty text says the empty set, which contains everything but pre-releases, and those too
/// where they are admitted.
pub proof fn law_empty_set(item: Seq<char>, prereleases: Option<bool>)
    ensures
        specifier_set::read_set(Seq::empty()) == Ok::<Seq<SpecifierSpec>, Seq<char>>(Seq::empty()),
        specifier_set::contains(
            SpecifierSetSpec { specs: Seq::empty(), prereleases: None },
            item,
            prereleases,
        ) <==> (prereleases == Some(true) || !specifiers::is_prerelease_text(item)),
{
    let none = Seq::<char>::empty();
    let pieces = text::split(none, specifier_set::comma());
    assert(pieces =~= seq![none]);
    assert(pieces.drop_last() =~= Seq::empty());
    assert(specifier_set::read_all(Seq::empty()) == Ok::<Seq<SpecifierSpec>, Seq<char>>(
        Seq::empty(),
    ));
    assert(none.skip(0) =~= none);
    assert(text::trim(none) =~= none);
}

/// The first final release: it is one where there is any, and nothing before it is one.
proof fn lemma_first_final(items: Seq<Seq<char>>)
    ensures
        specifiers::first_final(items) <= items.len(),
        specifiers::first_final(items) < items.len() ==> specifiers::is_final_text(
            items[specifiers::first_final(items) as int],
        ),
        forall|i: int|
            0 <= i < specifiers::first_final(items) ==> !specifiers::is_final_text(
                #[trigger] items[i],
            ),
    decreases items.len(),
{
    if items.len() > 0 && !specifiers::is_final_text(items[0]) {
        lemma_first_final(items.skip(1));
        assert forall|i: int| 0 <= i < specifiers::first_final(items) implies
            !specifiers::is_final_text(#[trigger] items[i]) by {
            if i > 0 {
                assert(items[i] == items.skip(1)[i - 1]);
            }
        }
    }
}

proof fn lemma_without_prereleases(items: Seq<Seq<char>>)
    ensures
        forall|i: int|
            #![trigger specifiers::without_prereleases(items)[i]]
            0 <= i < specifiers::without_prereleases(items).len() ==> items.contains(
                specifiers::without_prereleases(items)[i],
            ) && !specifiers::is_prerelease_text(specifiers::without_prereleases(items)[i]),
        forall|i: int|
            0 <= i < items.len() && !specifiers::is_prerelease_text(#[trigger] items[i])
                ==> specifiers::without_prereleases(items).contains(items[i]),
{
    let pred = |item: Seq<char>| !specifiers::is_prerelease_text(item);
    let kept = specifiers::without_prereleases(items);
    assert(kept == items.filter(pred));
    assert forall|i: int| 0 <= i < kept.len() implies items.contains(#[trigger] kept[i])
        && !specifiers::is_prerelease_text(kept[i]) by {
        items.lemma_filter_pred(pred, i);
        items.lemma_filter_contains_rev(pred, kept[i]);
    }
    assert forall|i: int|
        0 <= i < items.len() && !specifiers::is_prerelease_text(#[trigger] items[i]) implies
        kept.contains(items[i]) by {
        items.lemma_filter_contains(pred, i);
    }
}

/// What a filter keeps is among what matches. Where pre-releases are admitted it is all of
/// that, and where they are not it holds none. Where nothing is known and something matches,
/// something is kept; if a final release matches, all final releases are kept and no
/// pre-release is, and otherwise all that matches is kept.
pub proof fn law_filter(matched: Seq<Seq<char>>, effective: Option<bool>)
    ensures
        ({
            let kept = specifiers::apply_policy(matched, effective);
            let some_final = specifiers::first_final(matched) < matched.len();
            &&& forall|i: int| 0 <= i < kept.len() ==> matched.contains(#[trigger] kept[i])
            &&& effective == Some(true) ==> kept == matched
            &&& effective == Some(false) || (effective is None && some_final) ==> forall|i: int|
                0 <= i < kept.len() ==> !specifiers::is_prerelease_text(#[trigger] kept[i])
            &&& effective is None && !some_final ==> kept == matched
            &&& effective is None ==> forall|i: int|
                0 <= i < matched.len() && specifiers::is_final_text(#[trigger] matched[i])
                    ==> kept.contains(matched[i])
            &&& effective is None && matched.len() > 0 ==> kept.len() > 0
        }),
{
    let kept = specifiers::apply_policy(matched, effective);
    let n = specifiers::first_final(matched) as int;
    lemma_first_final(matched);
    if effective == Some(false) {
        lemma_without_prereleases(matched);
    } else if effective is None && n < matched.len() {
        let rest = matched.skip(n);
        lemma_without_prereleases(rest);
        assert forall|i: int| 0 <= i < kept.len() implies matched.contains(#[trigger] kept[i]) by {
            assert(rest.contains(kept[i]));
            let k = choose|k: int| 0 <= k < rest.len() && rest[k] == kept[i];
            assert(matched[k + n] == kept[i]);
        }
        assert forall|i: int|
            0 <= i < matched.len() && specifiers::is_final_text(#[trigger] matched[i]) implies
            kept.contains(matched[i]) by {
            assert(rest[i - n] == matched[i]);
        }
        assert(kept.contains(matched[n]));
    } else if effective is None {
        assert forall|i: int|
            0 <= i < matched.len() && specifiers::is_final_text(#[trigger] matched[i]) implies
            kept.contains(matched[i]) by {}
    }
    if effective == Some(true) || (effective is None && n == matched.len()) {
        assert forall|i: int| 0 <= i < kept.len() implies matched.contains(#[trigger] kept[i]) by {}
    }
}

/// What comes before the first final release is held back where nothing is known of
/// pre-releases: pre-releases, and also texts that are no versions.
pub proof fn law_held_back(before: Seq<Seq<char>>, item: Seq<char>, after: Seq<Seq<char>>)
    requires
        forall|i: int| 0 <= i < before.len() ==> !specifiers::is_final_text(#[trigger] before[i]),
        specifiers::is_final_text(item),
    ensures
        specifiers::apply_policy(before + seq![item] + after, None)
            == specifiers::without_prereleases(seq![item] + after),
{
    let all = before + seq![item] + after;
    lemma_first_final_at(all, before.len() as int);
    assert(all.skip(before.len() as int) =~= seq![item] + after);
}

proof fn lemma_first_final_at(items: Seq<Seq<char>>, n: int)
    requires
        0 <= n < items.len(),
        specifiers::is_final_text(items[n]),
        forall|i: int| 0 <= i < n ==> !specifiers::is_final_text(#[trigger] items[i]),
    ensures
        specifiers::first_final(items) == n,
{
    lemma_first_final(items);
    let m = specifiers::first_final(items) as int;
    if m < n {
        assert(!specifiers::is_final_text(items[m]));
    } else if n < m {
        assert(!specifiers::is_final_text(items[n]));
    }
}

/// The text of a specifier.
spec fn key(s: SpecifierSpec) -> Seq<char> {
    specifiers::clause_text(s)
}

/// Whether a text comes before another or is the same.
spec fn text_leq() -> spec_fn(Seq<char>, Seq<char>) -> bool {
    |a: Seq<char>, b: Seq<char>| order::compare_text(a, b) <= 0
}

proof fn lemma_text_leq()
    ensures
        total_ordering(text_leq()),
{
    let leq = text_leq();
    assert forall|a: Seq<char>| #[trigger] leq(a, a) by {
        order::lemma_text_order(a, a, a);
    }
    assert forall|a: Seq<char>, b: Seq<char>| #[trigger] leq(a, b) && #[trigger] leq(b, a)
        implies a == b by {
        order::lemma_text_order(a, b, a);
        order::lemma_text_order(b, a, b);
    }
    assert forall|a: Seq<char>, b: Seq<char>, c: Seq<char>| #[trigger]
        leq(a, b) && #[trigger] leq(b, c) implies leq(a, c) by {
        order::lemma_text_order(a, b, c);
    }
    assert forall|a: Seq<char>, b: Seq<char>| #[trigger] leq(a, b) || #[trigger] leq(b, a) by {
        order::lemma_text_order(a, b, a);
        order::lemma_text_order(b, a, b);
    }
}

/// Whether specifiers are in the order of their texts.
pub open spec fn in_order(l: Seq<SpecifierSpec>) -> bool {
    forall|i: int, j: int|
        0 <= i < j < l.len() ==> order::compare_text(
            specifiers::clause_text(#[trigger] l[i]),
            specifiers::clause_text(#[trigger] l[j]),
        ) <= 0
}

proof fn lemma_put(l: Seq<SpecifierSpec>, x: SpecifierSpec)
    requires
        in_order(l),
    ensures
        in_order(specifier_set::put(l, x)),
        specifier_set::put(l, x).to_multiset() == l.push(x).to_multiset(),
        specifier_set::put(l, x).len() == l.len() + 1,
    decreases l.len(),
{
    broadcast use group_to_multiset_ensures;

    let r = specifier_set::put(l, x);
    if l.len() == 0 {
    } else if order::compare_text(key(l.last()), key(x)) <= 0 {
        assert forall|i: int, j: int| 0 <= i < j < r.len() implies order::compare_text(
            specifiers::clause_text(#[trigger] r[i]),
            specifiers::clause_text(#[trigger] r[j]),
        ) <= 0 by {
            if j == l.len() && i < l.len() - 1 {
                assert(order::compare_text(key(l[i]), key(l[l.len() - 1])) <= 0);
                order::lemma_text_order(key(l[i]), key(l.last()), key(x));
            }
        }
    } else {
        let t = l.drop_last();
        let p = specifier_set::put(t, x);
        lemma_put(t, x);
        order::lemma_text_order(key(l.last()), key(x), key(x));
        order::lemma_text_order(key(x), key(l.last()), key(x));
        assert forall|i: int| 0 <= i < p.len() implies order::compare_text(
            key(#[trigger] p[i]),
            key(l.last()),
        ) <= 0 by {
            assert(p.to_multiset().contains(p[i]));
            assert(t.push(x).to_multiset().contains(p[i]));
            assert(t.push(x).contains(p[i]));
            let k = choose|k: int| 0 <= k < t.push(x).len() && t.push(x)[k] == p[i];
            if k < t.len() {
                assert(t.push(x)[k] == l[k]);
                assert(order::compare_text(key(l[k]), key(l[l.len() - 1])) <= 0);
            }
        }
        assert(r == p.push(l.last()));
        assert forall|i: int, j: int| 0 <= i < j < r.len() implies order::compare_text(
            specifiers::clause_text(#[trigger] r[i]),
            specifiers::clause_text(#[trigger] r[j]),
        ) <= 0 by {
            if j == p.len() {
                assert(r[i] == p[i]);
                assert(order::compare_text(key(p[i]), key(l.last())) <= 0);
            } else {
                assert(r[i] == p[i] && r[j] == p[j]);
            }
        }
        assert(p.push(l.last()).to_multiset() =~= p.to_multiset().insert(l.last()));
        assert(t.push(x).to_multiset() =~= t.to_multiset().insert(x));
        assert(l =~= t.push(l.last()));
        assert(l.to_multiset() =~= t.to_multiset().insert(l.last()));
        assert(l.push(x).to_multiset() =~= l.to_multiset().insert(x));
        assert(t.to_multiset().insert(x).insert(l.last()) =~= t.to_multiset().insert(
            l.last(),
        ).insert(x));
    }
}

/// Sorting puts specifiers in the order of their texts and keeps each as often as it was there.
pub proof fn law_sorted(l: Seq<SpecifierSpec>)
    ensures
        in_order(specifier_set::sorted(l)),
        specifier_set::sorted(l).to_multiset() == l.to_multiset(),
        specifier_set::sorted(l).len() == l.len(),
    decreases l.len(),
{
    broadcast use group_to_multiset_ensures;

    if l.len() > 0 {
        let t = l.drop_last();
        law_sorted(t);
        let st = specifier_set::sorted(t);
        lemma_put(st, l.last());
        assert(st.push(l.last()).to_multiset() =~= st.to_multiset().insert(l.last()));
        assert(l =~= t.push(l.last()));
        assert(t.push(l.last()).to_multiset() =~= t.to_multiset().insert(l.last()));
    }
}

/// Whether no two specifiers are the same.
pub open spec fn all_distinct(l: Seq<SpecifierSpec>) -> bool {
    forall|i: int, j: int|
        0 <= i < j < l.len() ==> !specifiers::same_clause(#[trigger] l[i], #[trigger] l[j])
}

proof fn lemma_distinct_within(l: Seq<SpecifierSpec>)
    ensures
        forall|i: int|
            0 <= i < specifier_set::distinct(l).len() ==> l.contains(
                #[trigger] specifier_set::distinct(l)[i],
            ),
    decreases l.len(),
{
    if l.len() > 0 {
        let t = l.drop_last();
        let d = specifier_set::distinct(t);
        let r = specifier_set::distinct(l);
        lemma_distinct_within(t);
        assert forall|i: int| 0 <= i < r.len() implies l.contains(#[trigger] r[i]) by {
            if i < d.len() {
                assert(t.contains(d[i]));
                let k = choose|k: int| 0 <= k < t.len() && t[k] == d[i];
                assert(l[k] == r[i]);
            } else {
                assert(l[l.len() - 1] == r[i]);
            }
        }
    }
}

proof fn lemma_distinct_covers(l: Seq<SpecifierSpec>)
    ensures
        forall|i: int|
            0 <= i < l.len() ==> specifier_set::has_same(
                specifier_set::distinct(l),
                #[trigger] l[i],
            ),
    decreases l.len(),
{
    if l.len() > 0 {
        let t = l.drop_last();
        let d = specifier_set::distinct(t);
        let r = specifier_set::distinct(l);
        lemma_distinct_covers(t);
        assert forall|i: int| 0 <= i < l.len() implies specifier_set::has_same(
            r,
            #[trigger] l[i],
        ) by {
            if i < t.len() {
                assert(l[i] == t[i]);
                assert(specifier_set::has_same(d, t[i]));
                let k = choose|k: int|
                    0 <= k < d.len() && specifiers::same_clause(#[trigger] d[k], t[i]);
                assert(r[k] == d[k]);
            } else if !specifier_set::has_same(d, l.last()) {
                assert(r[d.len() as int] == l.last());
                assert(specifiers::same_clause(r[d.len() as int], l[i]));
            }
        }
    }
}

proof fn lemma_distinct_all(l: Seq<SpecifierSpec>)
    ensures
        all_distinct(specifier_set::distinct(l)),
    decreases l.len(),
{
    if l.len() > 0 {
        let t = l.drop_last();
        let d = specifier_set::distinct(t);
        let r = specifier_set::distinct(l);
        lemma_distinct_all(t);
        assert forall|i: int, j: int| 0 <= i < j < r.len() implies !specifiers::same_clause(
            #[trigger] r[i],
            #[trigger] r[j],
        ) by {
            assert(r[i] == d[i]);
            if j < d.len() {
                assert(r[j] == d[j]);
            }
        }
    }
}

proof fn lemma_distinct_order(l: Seq<SpecifierSpec>)
    requires
        in_order(l),
    ensures
        in_order(specifier_set::distinct(l)),
    decreases l.len(),
{
    if l.len() > 0 {
        let t = l.drop_last();
        let d = specifier_set::distinct(t);
        let r = specifier_set::distinct(l);
        assert(in_order(t)) by {
            assert forall|i: int, j: int| 0 <= i < j < t.len() implies order::compare_text(
                specifiers::clause_text(#[trigger] t[i]),
                specifiers::clause_text(#[trigger] t[j]),
            ) <= 0 by {
                assert(t[i] == l[i] && t[j] == l[j]);
            }
        }
        lemma_distinct_order(t);
        lemma_distinct_within(t);
        assert forall|i: int, j: int| 0 <= i < j < r.len() implies order::compare_text(
            specifiers::clause_text(#[trigger] r[i]),
            specifiers::clause_text(#[trigger] r[j]),
        ) <= 0 by {
            assert(r[i] == d[i]);
            if j < d.len() {
                assert(r[j] == d[j]);
            } else {
                assert(t.contains(d[i]));
                let k = choose|k: int| 0 <= k < t.len() && t[k] == d[i];
                assert(l[k] == r[i]);
                assert(l[l.len() - 1] == r[j]);
            }
        }
    }
}

/// The canonical form of a set is in the order of the texts and holds no two specifiers that
/// are the same. All it holds is of the set, and for each specifier of the set it holds one
/// that is the same.
pub proof fn law_canonical(l: Seq<SpecifierSpec>)
    ensures
        in_order(specifier_set::canonical(l)),
        all_distinct(specifier_set::canonical(l)),
        forall|i: int|
            0 <= i < specifier_set::canonical(l).len() ==> l.contains(
                #[trigger] specifier_set::canonical(l)[i],
            ),
        forall|i: int|
            0 <= i < l.len() ==> specifier_set::has_same(
                specifier_set::canonical(l),
                #[trigger] l[i],
            ),
{
    broadcast use group_to_multiset_ensures;

    let s = specifier_set::sorted(l);
    let c = specifier_set::canonical(l);
    law_sorted(l);
    lemma_distinct_within(s);
    lemma_distinct_covers(s);
    lemma_distinct_all(s);
    lemma_distinct_order(s);
    assert forall|i: int| 0 <= i < c.len() implies l.contains(#[trigger] c[i]) by {
        assert(s.contains(c[i]));
        assert(s.to_multiset().contains(c[i]));
        assert(l.to_multiset().contains(c[i]));
    }
    assert forall|i: int| 0 <= i < l.len() implies specifier_set::has_same(c, #[trigger] l[i]) by {
        assert(l.contains(l[i]));
        assert(l.to_multiset().contains(l[i]));
        assert(s.to_multiset().contains(l[i]));
        assert(s.contains(l[i]));
        let k = choose|k: int| 0 <= k < s.len() && s[k] == l[i];
        assert(specifier_set::has_same(c, s[k]));
    }
}

proof fn lemma_sorted_again(l: Seq<SpecifierSpec>)
    requires
        in_order(l),
    ensures
        specifier_set::sorted(l) == l,
    decreases l.len(),
{
    if l.len() > 0 {
        let t = l.drop_last();
        assert(in_order(t)) by {
            assert forall|i: int, j: int| 0 <= i < j < t.len() implies order::compare_text(
                specifiers::clause_text(#[trigger] t[i]),
                specifiers::clause_text(#[trigger] t[j]),
            ) <= 0 by {
                assert(t[i] == l[i] && t[j] == l[j]);
            }
        }
        lemma_sorted_again(t);
        if t.len() > 0 {
            assert(order::compare_text(
                specifiers::clause_text(l[l.len() - 2]),
                specifiers::clause_text(l[l.len() - 1]),
            ) <= 0);
        }
        assert(t.push(l.last()) =~= l);
    }
}

proof fn lemma_distinct_again(l: Seq<SpecifierSpec>)
    requires
        all_distinct(l),
    ensures
        specifier_set::distinct(l) == l,
    decreases l.len(),
{
    if l.len() > 0 {
        let t = l.drop_last();
        assert(all_distinct(t)) by {
            assert forall|i: int, j: int| 0 <= i < j < t.len() implies !specifiers::same_clause(
                #[trigger] t[i],
                #[trigger] t[j],
            ) by {
                assert(t[i] == l[i] && t[j] == l[j]);
            }
        }
        lemma_distinct_again(t);
        if specifier_set::has_same(t, l.last()) {
            let k = choose|k: int|
                0 <= k < t.len() && specifiers::same_clause(#[trigger] t[k], l.last());
            assert(t[k] == l[k]);
            assert(!specifiers::same_clause(l[k], l[l.len() - 1]));
        }
        assert(t.push(l.last()) =~= l);
    }
}

/// The canonical form of a set is its own canonical form.
pub proof fn law_canonical_again(l: Seq<SpecifierSpec>)
    ensures
        specifier_set::canonical(specifier_set::canonical(l)) == specifier_set::canonical(l),
{
    law_canonical(l);
    lemma_sorted_again(specifier_set::canonical(l));
    lemma_distinct_again(specifier_set::canonical(l));
}

proof fn lemma_read_texts(l: Seq<SpecifierSpec>)
    requires
        specifier_set::is_list(l),
    ensures
        specifier_set::read_all(specifier_set::clause_texts(l)) == Ok::<
            Seq<SpecifierSpec>,
            Seq<char>,
        >(l),
    decreases l.len(),
{
    let ts = specifier_set::clause_texts(l);
    if l.len() > 0 {
        let t = l.drop_last();
        assert(specifier_set::is_list(t)) by {
            assert forall|i: int| 0 <= i < t.len() implies specifier_set::is_member(
                #[trigger] t[i],
            ) by {
                assert(t[i] == l[i]);
            }
        }
        lemma_read_texts(t);
        assert(ts.drop_last() =~= specifier_set::clause_texts(t));
        let x = l[l.len() - 1];
        assert(specifier_set::is_member(x));
        assert(x.prereleases is None);
        let c = specifiers::clause_text(x);
        assert(ts.last() == c);
        clause::lemma_clause_trim(c);
        assert(t.push(x) =~= l);
    } else {
        assert(ts =~= Seq::empty());
        assert(l =~= Seq::empty());
    }
}

/// Writing a set: the text of a set says its specifiers in canonical form, so that the set
/// that is read from it equals the set that was written.
pub proof fn law_set_text(l: Seq<SpecifierSpec>)
    requires
        specifier_set::is_list(l),
    ensures
        specifier_set::read_set(specifier_set::set_text(l)) == Ok::<Seq<SpecifierSpec>, Seq<char>>(
            specifier_set::canonical(l),
        ),
        specifier_set::same_set(
            SpecifierSetSpec { specs: l, prereleases: None },
            SpecifierSetSpec { specs: specifier_set::canonical(l), prereleases: None },
        ),
{
    lemma_set_text(l);
    lemma_same_canonical(l);
}

#[verifier::rlimit(30)]
proof fn lemma_set_text(l: Seq<SpecifierSpec>)
    requires
        specifier_set::is_list(l),
    ensures
        specifier_set::read_set(specifier_set::set_text(l)) == Ok::<Seq<SpecifierSpec>, Seq<char>>(
            specifier_set::canonical(l),
        ),
{
    let c = specifier_set::canonical(l);
    let ts = specifier_set::clause_texts(c);
    law_canonical(l);
    law_canonical_again(l);
    assert forall|i: int| 0 <= i < c.len() implies specifier_set::is_member(#[trigger] c[i])
        && c[i].prereleases is None by {
        assert(l.contains(c[i]));
        let k = choose|k: int| 0 <= k < l.len() && l[k] == c[i];
        assert(specifier_set::is_member(l[k]));
        assert(l[k].prereleases is None);
    }
    lemma_read_texts(c);
    if c.len() == 0 {
        assert(ts =~= Seq::empty());
        law_empty_set(Seq::empty(), None);
        assert(specifier_set::set_text(l) =~= Seq::empty());
        assert(c =~= Seq::empty());
    } else {
        assert forall|i: int, j: int|
            0 <= i < ts.len() && 0 <= j < ts[i].len() implies !specifier_set::comma().contains(
            #[trigger] ts[i][j],
        ) by {
            assert(specifier_set::is_member(c[i]));
            assert(ts[i] == specifiers::clause_text(c[i]));
            assert(ts[i].contains(ts[i][j]));
        }
        assert(specifier_set::comma()[0] == ',');
        assert(specifier_set::comma().contains(','));
        text::lemma_split_join(ts, ',', specifier_set::comma());
        assert(seq![','] =~= specifier_set::comma());
    }
}

proof fn lemma_texts_multiset(l: Seq<SpecifierSpec>)
    ensures
        specifier_set::clause_texts(specifier_set::sorted(l)).to_multiset()
            == specifier_set::clause_texts(l).to_multiset(),
    decreases l.len(),
{
    broadcast use group_to_multiset_ensures;

    if l.len() > 0 {
        let t = l.drop_last();
        lemma_texts_multiset(t);
        lemma_put_texts(specifier_set::sorted(t), l.last());
        let a = specifier_set::clause_texts(t);
        let k = key(l.last());
        assert(specifier_set::clause_texts(l) =~= a.push(k));
        assert(a.push(k).to_multiset() =~= a.to_multiset().insert(k));
    }
}

proof fn lemma_put_texts(l: Seq<SpecifierSpec>, x: SpecifierSpec)
    ensures
        specifier_set::clause_texts(specifier_set::put(l, x)).to_multiset()
            == specifier_set::clause_texts(l).to_multiset().insert(key(x)),
    decreases l.len(),
{
    broadcast use group_to_multiset_ensures;

    let a = specifier_set::clause_texts(l);
    if l.len() == 0 || order::compare_text(key(l.last()), key(x)) <= 0 {
        assert(specifier_set::clause_texts(l.push(x)) =~= a.push(key(x)));
        assert(a.push(key(x)).to_multiset() =~= a.to_multiset().insert(key(x)));
    } else {
        let t = l.drop_last();
        let b = specifier_set::clause_texts(t);
        let p = specifier_set::put(t, x);
        let q = specifier_set::clause_texts(p);
        lemma_put_texts(t, x);
        assert(specifier_set::clause_texts(p.push(l.last())) =~= q.push(key(l.last())));
        assert(q.push(key(l.last())).to_multiset() =~= q.to_multiset().insert(key(l.last())));
        assert(a =~= b.push(key(l.last())));
        assert(b.push(key(l.last())).to_multiset() =~= b.to_multiset().insert(key(l.last())));
        assert(b.to_multiset().insert(key(x)).insert(key(l.last())) =~= b.to_multiset().insert(
            key(l.last()),
        ).insert(key(x)));
    }
}

/// The order in which a set is written does not matter: sets with the same texts are equal and
/// have the same text.
pub proof fn law_set_order(a: Seq<SpecifierSpec>, b: Seq<SpecifierSpec>)
    requires
        specifier_set::is_list(a),
        specifier_set::is_list(b),
        specifier_set::clause_texts(a).to_multiset() == specifier_set::clause_texts(
            b,
        ).to_multiset(),
    ensures
        specifier_set::canonical(a) == specifier_set::canonical(b),
        specifier_set::set_text(a) == specifier_set::set_text(b),
        specifier_set::same_set(
            SpecifierSetSpec { specs: a, prereleases: None },
            SpecifierSetSpec { specs: b, prereleases: None },
        ),
{
    lemma_set_order(a, b);
    lemma_same_canonical(a);
    lemma_same_canonical(b);
    lemma_within_through(a, specifier_set::canonical(a), b);
    lemma_within_through(b, specifier_set::canonical(b), a);
}

#[verifier::rlimit(30)]
proof fn lemma_set_order(a: Seq<SpecifierSpec>, b: Seq<SpecifierSpec>)
    requires
        specifier_set::is_list(a),
        specifier_set::is_list(b),
        specifier_set::clause_texts(a).to_multiset() == specifier_set::clause_texts(
            b,
        ).to_multiset(),
    ensures
        specifier_set::canonical(a) == specifier_set::canonical(b),
{
    broadcast use group_to_multiset_ensures;

    let (s, t) = (specifier_set::sorted(a), specifier_set::sorted(b));
    let (x, y) = (specifier_set::clause_texts(s), specifier_set::clause_texts(t));
    law_sorted(a);
    law_sorted(b);
    lemma_texts_multiset(a);
    lemma_texts_multiset(b);
    lemma_text_leq();
    assert(sorted_by(x, text_leq()));
    assert(sorted_by(y, text_leq()));
    lemma_sorted_unique(x, y, text_leq());
    assert(s.len() == t.len()) by {
        assert(x.len() == y.len());
    }
    assert forall|i: int| 0 <= i < s.len() implies s[i] == t[i] by {
        assert(x[i] == y[i]);
        assert(s.contains(s[i]) && t.contains(t[i]));
        assert(s.to_multiset().contains(s[i]) && t.to_multiset().contains(t[i]));
        assert(a.to_multiset().contains(s[i]) && b.to_multiset().contains(t[i]));
        assert(a.contains(s[i]) && b.contains(t[i]));
        let j = choose|j: int| 0 <= j < a.len() && a[j] == s[i];
        let k = choose|k: int| 0 <= k < b.len() && b[k] == t[i];
        assert(specifier_set::is_member(a[j]) && specifier_set::is_member(b[k]));
        assert(a[j].prereleases is None && b[k].prereleases is None);
    }
    assert(s =~= t);
}

/// A set equals its canonical form.
proof fn lemma_same_canonical(l: Seq<SpecifierSpec>)
    ensures
        specifier_set::within(l, specifier_set::canonical(l)),
        specifier_set::within(specifier_set::canonical(l), l),
{
    let c = specifier_set::canonical(l);
    law_canonical(l);
    assert forall|i: int| 0 <= i < c.len() implies specifier_set::has_same(l, #[trigger] c[i]) by {
        assert(l.contains(c[i]));
        let k = choose|k: int| 0 <= k < l.len() && l[k] == c[i];
        assert(specifiers::same_clause(l[k], c[i]));
    }
}

/// Equal specifiers share their key text.
pub proof fn law_equal_key(a: SpecifierSpec, b: SpecifierSpec)
    requires
        specifiers::same_clause(a, b),
    ensures
        specifiers::canonical_clause(a).0.spelling() + specifiers::canonical_clause(a).1
            == specifiers::canonical_clause(b).0.spelling() + specifiers::canonical_clause(b).1,
{
}

/// Equality of sets is an equivalence.
pub proof fn law_set_equality(a: SpecifierSetSpec, b: SpecifierSetSpec, c: SpecifierSetSpec)
    ensures
        specifier_set::same_set(a, a),
        specifier_set::same_set(a, b) ==> specifier_set::same_set(b, a),
        specifier_set::same_set(a, b) && specifier_set::same_set(b, c) ==> specifier_set::same_set(
            a,
            c,
        ),
{
    lemma_within_self(a.specs);
    if specifier_set::same_set(a, b) && specifier_set::same_set(b, c) {
        lemma_within_through(a.specs, b.specs, c.specs);
        lemma_within_through(c.specs, b.specs, a.specs);
    }
}

proof fn lemma_within_self(l: Seq<SpecifierSpec>)
    ensures
        specifier_set::within(l, l),
{
    assert forall|i: int| 0 <= i < l.len() implies specifier_set::has_same(l, #[trigger] l[i]) by {
        assert(specifiers::same_clause(l[i], l[i]));
    }
}

proof fn lemma_within_through(
    l: Seq<SpecifierSpec>,
    m: Seq<SpecifierSpec>,
    n: Seq<SpecifierSpec>,
)
    requires
        specifier_set::within(l, m),
        specifier_set::within(m, n),
    ensures
        specifier_set::within(l, n),
{
    assert forall|i: int| 0 <= i < l.len() implies specifier_set::has_same(n, #[trigger] l[i]) by {
        assert(specifier_set::has_same(m, l[i]));
        let j = choose|j: int| 0 <= j < m.len() && specifiers::same_clause(#[trigger] m[j], l[i]);
        assert(specifier_set::has_same(n, m[j]));
        let k = choose|k: int| 0 <= k < n.len() && specifiers::same_clause(#[trigger] n[k], m[j]);
        assert(specifiers::same_clause(n[k], l[i]));
    }
}

/// Whether one of some specifiers is the same as another.
pub open spec fn holds_alike(l: Seq<SpecifierSpec>, x: SpecifierSpec) -> bool {
    exists|j: int| 0 <= j < l.len() && specifiers::same_clause(#[trigger] l[j], x)
}

/// Equal sets have the same members: each specifier of one is the same as one of the other.
/// What was set for pre-releases does not matter.
pub proof fn law_set_members(a: SpecifierSetSpec, b: SpecifierSetSpec, p: Option<bool>)
    ensures
        specifier_set::same_set(a, b) <==> (forall|i: int|
            0 <= i < a.specs.len() ==> holds_alike(b.specs, #[trigger] a.specs[i])) && (forall|j: int|
            0 <= j < b.specs.len() ==> holds_alike(a.specs, #[trigger] b.specs[j])),
        specifier_set::same_set(SpecifierSetSpec { prereleases: p, ..a }, b)
            == specifier_set::same_set(a, b),
{
    let l = a.specs;
    let m = b.specs;
    assert(forall|x: SpecifierSpec| holds_alike(l, x) == #[trigger] specifier_set::has_same(l, x));
    assert(forall|x: SpecifierSpec| holds_alike(m, x) == #[trigger] specifier_set::has_same(m, x));
    if specifier_set::same_set(a, b) {
        assert forall|i: int| 0 <= i < l.len() implies holds_alike(m, #[trigger] l[i]) by {
            assert(specifier_set::has_same(m, l[i]));
        }
        assert forall|j: int| 0 <= j < m.len() implies holds_alike(l, #[trigger] m[j]) by {
            assert(specifier_set::has_same(l, m[j]));
        }
    }
    if (forall|i: int| 0 <= i < l.len() ==> holds_alike(m, #[trigger] l[i])) && (forall|j: int|
        0 <= j < m.len() ==> holds_alike(l, #[trigger] m[j])) {
        assert forall|i: int| 0 <= i < l.len() implies specifier_set::has_same(m, #[trigger] l[i]) by {
            assert(holds_alike(m, l[i]));
        }
        assert forall|j: int| 0 <= j < m.len() implies specifier_set::has_same(l, #[trigger] m[j]) by {
            assert(holds_alike(l, m[j]));
        }
    }
}

proof fn lemma_distinct_first(l: Seq<SpecifierSpec>, i: int, k: int)
    requires
        0 <= i < specifier_set::distinct(l).len(),
        0 <= k < l.len(),
        specifiers::same_clause(l[k], specifier_set::distinct(l)[i]),
    ensures
        exists|m: int| 0 <= m <= k && #[trigger] l[m] == specifier_set::distinct(l)[i],
    decreases l.len(),
{
    let d = l.drop_last();
    let e = specifier_set::distinct(d);
    let c = specifier_set::distinct(l);
    if i < e.len() {
        if k < d.len() {
            assert(d[k] == l[k]);
            lemma_distinct_first(d, i, k);
            let m = choose|m: int| 0 <= m <= k && #[trigger] d[m] == e[i];
            assert(l[m] == c[i]);
        } else {
            lemma_distinct_within(d);
            assert(d.contains(e[i]));
            let m = choose|m: int| 0 <= m < d.len() && d[m] == e[i];
            assert(l[m] == c[i]);
        }
    } else {
        assert(c[i] == l.last());
        if k < d.len() {
            lemma_distinct_covers(d);
            assert(d[k] == l[k]);
            assert(specifier_set::has_same(e, d[k]));
            let j = choose|j: int| 0 <= j < e.len() && specifiers::same_clause(#[trigger] e[j], d[k]);
            assert(specifiers::same_clause(e[j], l.last()));
            assert(specifier_set::has_same(e, l.last()));
        } else {
            assert(l[k] == c[i]);
        }
    }
}

/// Of specifiers of a set that are the same the canonical form holds one whose text comes first.
pub proof fn law_canonical_first(l: Seq<SpecifierSpec>, i: int, k: int)
    requires
        0 <= i < specifier_set::canonical(l).len(),
        0 <= k < l.len(),
        specifiers::same_clause(l[k], specifier_set::canonical(l)[i]),
    ensures
        order::compare_text(
            specifiers::clause_text(specifier_set::canonical(l)[i]),
            specifiers::clause_text(l[k]),
        ) <= 0,
{
    let s = specifier_set::sorted(l);
    law_sorted(l);
    lemma_sorted_has(l, k);
    let n = choose|n: int| 0 <= n < s.len() && s[n] == l[k];
    lemma_distinct_first(s, i, n);
    let m = choose|m: int| 0 <= m <= n && #[trigger] s[m] == specifier_set::distinct(s)[i];
    if m < n {
        assert(order::compare_text(key(s[m]), key(s[n])) <= 0);
    } else {
        order::lemma_text_order(key(s[m]), key(s[n]), key(s[n]));
    }
}

proof fn lemma_sorted_has(l: Seq<SpecifierSpec>, k: int)
    requires
        0 <= k < l.len(),
    ensures
        specifier_set::sorted(l).contains(l[k]),
{
    broadcast use group_to_multiset_ensures;

    let s = specifier_set::sorted(l);
    law_sorted(l);
    assert(l.contains(l[k]));
    assert(l.to_multiset().contains(l[k]));
    assert(s.to_multiset().contains(l[k]));
}

/// A specifier is written as its operator and its version, and a set as the specifiers of its
/// canonical form with commas between them.
pub proof fn law_write_set(l: Seq<SpecifierSpec>, c: Seq<SpecifierSpec>, x: SpecifierSpec)
    requires
        specifier_set::canonical(l) == c.push(x),
    ensures
        specifiers::clause_text(x) == x.operator.spelling() + x.version,
        c.len() == 0 ==> specifier_set::set_text(l) == specifiers::clause_text(x),
        c.len() > 0 ==> specifier_set::set_text(l) == text::join(
            c.map_values(|s: SpecifierSpec| s.operator.spelling() + s.version),
            ","@,
        ) + ","@ + specifiers::clause_text(x),
{
    reveal_strlit(",");
    let ts = specifier_set::clause_texts(c);
    let t = specifiers::clause_text(x);
    assert(","@ =~= specifier_set::comma());
    assert(specifier_set::clause_texts(c.push(x)) =~= ts.push(t));
    if c.len() > 0 {
        text::lemma_join_push(ts, t, specifier_set::comma());
        assert(ts =~= c.map_values(|s: SpecifierSpec| s.operator.spelling() + s.version));
    } else {
        assert(ts.push(t) =~= seq![t]);
        assert(text::join(seq![t], specifier_set::comma()) == t);
    }
}

} // verus!
