//! Laws of the order of versions: which part of a version decides, and how.

use std::cmp::Ordering;

use vstd::prelude::*;
use vstd::std_specs::cmp::{PartialEqSpec, PartialOrdSpec};

use crate::grammar::{LocalPart, PreLetter, VersionSpec};
use crate::order;
use crate::ranking;
use crate::version::Version;

verus! {

// --- Releases. ---

/// A number of a release, where missing numbers are zeros.
pub open spec fn number_at(r: Seq<nat>, i: int) -> nat {
    if i < r.len() {
        r[i]
    } else {
        0
    }
}

/// Whether two versions have the same epoch and the same numbers, where missing numbers are
/// zeros.
pub open spec fn same_numbers(a: VersionSpec, b: VersionSpec) -> bool {
    &&& a.epoch == b.epoch
    &&& forall|i: int|
        0 <= i ==> #[trigger] number_at(a.release, i) == number_at(b.release, i)
}

/// A release without the zeros at its end has the same numbers, and does not end in a zero.
pub proof fn lemma_trim_numbers(r: Seq<nat>, i: int)
    requires
        0 <= i,
    ensures
        number_at(ranking::trim_release(r), i) == number_at(r, i),
        ranking::trim_release(r).len() > 0 ==> ranking::trim_release(r).last() > 0,
    decreases r.len(),
{
    if r.len() > 0 && r.last() == 0 {
        lemma_trim_numbers(r.drop_last(), i);
    }
}

proof fn lemma_seq_decides(a: Seq<nat>, b: Seq<nat>, i: int)
    requires
        0 <= i,
        a.len() > 0 ==> a.last() > 0,
        b.len() > 0 ==> b.last() > 0,
        forall|j: int| 0 <= j < i ==> #[trigger] number_at(a, j) == number_at(b, j),
        number_at(a, i) < number_at(b, i),
    ensures
        order::compare_seq(a, b, order::nat_order()) < 0,
    decreases i,
{
    assert(b.len() > i);
    if a.len() > 0 {
        if i > 0 {
            assert(number_at(a, 0) == number_at(b, 0));
            let (x, y) = (a.skip(1), b.skip(1));
            if x.len() > 0 {
                assert(x.last() == a.last());
            }
            if y.len() > 0 {
                assert(y.last() == b.last());
            }
            assert forall|j: int| 0 <= j < i - 1 implies #[trigger] number_at(x, j) == number_at(
                y,
                j,
            ) by {
                assert(number_at(a, j + 1) == number_at(b, j + 1));
            }
            assert(number_at(x, i - 1) == number_at(a, i));
            assert(number_at(y, i - 1) == number_at(b, i));
            lemma_seq_decides(x, y, i - 1);
        }
    }
}

/// The first number in which two releases of an epoch differ decides, where missing numbers
/// are zeros.
pub proof fn law_release(a: VersionSpec, b: VersionSpec, i: int)
    requires
        a.epoch == b.epoch,
        0 <= i,
        forall|j: int|
            0 <= j < i ==> #[trigger] number_at(a.release, j) == number_at(b.release, j),
        number_at(a.release, i) < number_at(b.release, i),
    ensures
        ranking::compare(a, b) < 0,
        ranking::compare(b, a) > 0,
{
    let (x, y) = (ranking::trim_release(a.release), ranking::trim_release(b.release));
    assert forall|j: int| 0 <= j <= i implies #[trigger] number_at(x, j) == number_at(
        a.release,
        j,
    ) && number_at(y, j) == number_at(b.release, j) by {
        lemma_trim_numbers(a.release, j);
        lemma_trim_numbers(b.release, j);
    }
    lemma_trim_numbers(a.release, 0);
    lemma_trim_numbers(b.release, 0);
    assert(number_at(x, i) < number_at(y, i));
    lemma_seq_decides(x, y, i);
    ranking::law_total_order(a, b, b);
}

/// Two releases are the same exactly where their numbers are, where missing numbers are zeros.
pub proof fn law_same_numbers(a: VersionSpec, b: VersionSpec)
    ensures
        ranking::same_base(a, b) <==> same_numbers(a, b),
{
    let (x, y) = (ranking::trim_release(a.release), ranking::trim_release(b.release));
    lemma_trim_numbers(a.release, 0);
    lemma_trim_numbers(b.release, 0);
    if ranking::same_base(a, b) {
        assert forall|i: int| 0 <= i implies #[trigger] number_at(a.release, i) == number_at(
            b.release,
            i,
        ) by {
            lemma_trim_numbers(a.release, i);
            lemma_trim_numbers(b.release, i);
        }
    }
    if same_numbers(a, b) {
        assert forall|i: int| 0 <= i implies #[trigger] number_at(x, i) == number_at(y, i) by {
            lemma_trim_numbers(a.release, i);
            lemma_trim_numbers(b.release, i);
            assert(number_at(a.release, i) == number_at(b.release, i));
        }
        if x.len() > y.len() {
            assert(number_at(x, x.len() - 1) == number_at(y, x.len() - 1));
        }
        if x.len() < y.len() {
            assert(number_at(x, y.len() - 1) == number_at(y, y.len() - 1));
        }
        assert forall|i: int| 0 <= i < x.len() implies x[i] == y[i] by {
            assert(number_at(x, i) == number_at(y, i));
        }
        assert(x =~= y);
    }
}

/// Two versions are equal exactly where they have the same epoch, the same numbers, the same
/// pre-release, post-release and development release, and the same local label.
pub proof fn law_equal(a: VersionSpec, b: VersionSpec)
    ensures
        ranking::compare(a, b) == 0 <==> same_numbers(a, b) && a.pre == b.pre && a.post == b.post
            && a.dev == b.dev && a.local == b.local,
{
    law_same_numbers(a, b);
    ranking::law_total_order(a, b, b);
}

// --- Stages of one release. ---

/// Whether a letter comes before another: alphas, betas, release candidates.
pub open spec fn earlier(l: PreLetter, k: PreLetter) -> bool {
    ||| l == PreLetter::A && k == PreLetter::B
    ||| l == PreLetter::A && k == PreLetter::Rc
    ||| l == PreLetter::B && k == PreLetter::Rc
}

proof fn lemma_within(a: VersionSpec, b: VersionSpec)
    requires
        same_numbers(a, b),
    ensures
        a.epoch == b.epoch,
        ranking::compare_release(a.release, b.release) == 0,
{
    law_same_numbers(a, b);
    ranking::lemma_release_order(a.release, b.release, b.release);
}

/// Pre-releases of one release are in the order of their letters, and under one letter in that
/// of their numbers, whatever follows.
pub proof fn law_prereleases(
    a: VersionSpec,
    b: VersionSpec,
    l: PreLetter,
    m: nat,
    k: PreLetter,
    n: nat,
)
    requires
        same_numbers(a, b),
        a.pre == Some((l, m)),
        b.pre == Some((k, n)),
        earlier(l, k) || (l == k && m < n),
    ensures
        ranking::compare(a, b) < 0,
        ranking::compare(b, a) > 0,
{
    lemma_within(a, b);
    ranking::law_total_order(a, b, b);
}

/// Pre-releases come before the release and its post-releases, and also before development
/// releases of the latter.
pub proof fn law_before_release(a: VersionSpec, b: VersionSpec)
    requires
        same_numbers(a, b),
        a.pre is Some,
        b.pre is None,
        b.post is Some || b.dev is None,
    ensures
        ranking::compare(a, b) < 0,
        ranking::compare(b, a) > 0,
{
    lemma_within(a, b);
    ranking::law_total_order(a, b, b);
}

/// A development release of the release itself comes before everything else of that release.
pub proof fn law_development_first(a: VersionSpec, b: VersionSpec)
    requires
        same_numbers(a, b),
        a.pre is None && a.post is None && a.dev is Some,
        b.pre is Some || b.post is Some || b.dev is None,
    ensures
        ranking::compare(a, b) < 0,
        ranking::compare(b, a) > 0,
{
    lemma_within(a, b);
    ranking::law_total_order(a, b, b);
}

/// Post-releases of one release or pre-release come after it, in the order of their numbers.
pub proof fn law_postreleases(a: VersionSpec, b: VersionSpec)
    requires
        same_numbers(a, b),
        a.pre == b.pre,
        b.post matches Some(n) && (a.post matches Some(m) ==> m < n),
    ensures
        ranking::compare(a, b) < 0,
        ranking::compare(b, a) > 0,
{
    lemma_within(a, b);
    ranking::law_total_order(a, b, b);
}

/// Development releases come before what they lead to, in the order of their numbers.
pub proof fn law_development(a: VersionSpec, b: VersionSpec)
    requires
        same_numbers(a, b),
        a.pre == b.pre,
        a.post == b.post,
        a.dev matches Some(m) && (b.dev matches Some(n) ==> m < n),
    ensures
        ranking::compare(a, b) < 0,
        ranking::compare(b, a) > 0,
{
    lemma_within(a, b);
    ranking::law_total_order(a, b, b);
}

// --- Texts and local labels. ---

/// Of two texts the one comes first that has the smaller character where they first differ, or
/// that ends there.
pub proof fn law_texts(a: Seq<char>, b: Seq<char>, i: int)
    requires
        0 <= i <= a.len(),
        i < b.len(),
        forall|j: int| 0 <= j < i ==> #[trigger] a[j] == b[j],
        i < a.len() ==> a[i] < b[i],
    ensures
        order::compare_text(a, b) < 0,
        order::compare_text(b, a) > 0,
        a != b,
    decreases i,
{
    if i > 0 {
        assert(a[0] == b[0]);
        let (x, y) = (a.skip(1), b.skip(1));
        assert forall|j: int| 0 <= j < i - 1 implies #[trigger] x[j] == y[j] by {
            assert(a[j + 1] == b[j + 1]);
        }
        law_texts(x, y, i - 1);
        assert(order::char_order()(a[0], b[0]) == 0);
        assert(order::compare_text(x, y) == order::compare_seq(x, y, order::char_order()));
    } else if a.len() > 0 {
        assert(order::char_order()(a[0], b[0]) < 0);
    }
    order::lemma_text_order(a, b, b);
}

/// Whether two versions differ at most in their local labels.
pub open spec fn same_public(a: VersionSpec, b: VersionSpec) -> bool {
    same_numbers(a, b) && a.pre == b.pre && a.post == b.post && a.dev == b.dev
}

/// Whether a segment of a local label comes before another: texts before numbers, texts by
/// their characters, numbers by size.
pub open spec fn part_before(p: LocalPart, q: LocalPart) -> bool {
    match p {
        LocalPart::Text(s) => q matches LocalPart::Text(t) ==> order::compare_text(s, t) < 0,
        LocalPart::Number(m) => q matches LocalPart::Number(n) && m < n,
    }
}

proof fn lemma_labels(a: Seq<LocalPart>, b: Seq<LocalPart>, i: int)
    requires
        0 <= i <= a.len(),
        i < b.len(),
        forall|j: int| 0 <= j < i ==> #[trigger] a[j] == b[j],
        i < a.len() ==> part_before(a[i], b[i]),
    ensures
        order::compare_seq(a, b, ranking::part_order()) < 0,
    decreases i,
{
    if i > 0 {
        assert(a[0] == b[0]);
        let p = a[0];
        assert(ranking::part_order()(p, p) == 0) by {
            if let LocalPart::Text(s) = p {
                order::lemma_text_order(s, s, s);
            }
        }
        let (x, y) = (a.skip(1), b.skip(1));
        assert forall|j: int| 0 <= j < i - 1 implies #[trigger] x[j] == y[j] by {
            assert(a[j + 1] == b[j + 1]);
        }
        lemma_labels(x, y, i - 1);
    }
}

/// Of versions that differ only in their local labels the one comes first that has none, or
/// whose label is smaller in the segment where they first differ, or ends there.
pub proof fn law_local(a: VersionSpec, b: VersionSpec, i: int)
    requires
        same_public(a, b),
        b.local matches Some(m) && match a.local {
            Some(l) => 0 <= i <= l.len() && i < m.len() && (forall|j: int|
                0 <= j < i ==> #[trigger] l[j] == m[j]) && (i < l.len() ==> part_before(l[i], m[i])),
            None => true,
        },
    ensures
        ranking::compare(a, b) < 0,
        ranking::compare(b, a) > 0,
{
    lemma_within(a, b);
    if let (Some(l), Some(m)) = (a.local, b.local) {
        lemma_labels(l, m, i);
    }
    ranking::law_total_order(a, b, b);
}

/// A version that comes first without regard to local labels comes first with any.
pub proof fn law_local_last(
    a: VersionSpec,
    b: VersionSpec,
    l: Option<Seq<LocalPart>>,
    m: Option<Seq<LocalPart>>,
)
    requires
        a.local is None,
        b.local is None,
        ranking::compare(a, b) < 0,
    ensures
        ranking::compare(VersionSpec { local: l, ..a }, VersionSpec { local: m, ..b }) < 0,
{
}

// --- Operators. ---

/// The operators on versions follow the order.
pub proof fn law_operators(a: Version, b: Version)
    ensures
        a.partial_cmp_spec(&b) == Some(Ordering::Less) <==> ranking::compare(a@, b@) < 0,
        a.partial_cmp_spec(&b) == Some(Ordering::Equal) <==> ranking::compare(a@, b@) == 0,
        a.partial_cmp_spec(&b) == Some(Ordering::Greater) <==> ranking::compare(a@, b@) > 0,
        a.eq_spec(&b) <==> ranking::compare(a@, b@) == 0,
        order::sign(ranking::compare(a@, b@)) == order::Sign::Before <==> ranking::compare(b@, a@)
            > 0,
        order::sign(ranking::compare(a@, b@)) == order::Sign::Same <==> ranking::compare(b@, a@)
            == 0,
{
    ranking::law_total_order(a@, b@, b@);
    ranking::law_total_order(b@, a@, b@);
}

} // verus!
