//! Which versions a specifier admits.

use vstd::prelude::*;

use crate::canonical;
use crate::chars;
use crate::clause::{self, Operator};
use crate::grammar::{self, VersionSpec};
use crate::outside;
use crate::ranking;
use crate::text::{self, Class};
use crate::version::{self, Version};

verus! {

// --- Versions as lists of components. ---

/// One component of a version text. A number with a pre-release behind it, such as `0rc1`, is
/// two components.
pub open spec fn split_item(s: Seq<char>) -> Seq<Seq<char>> {
    let n = text::run(Class::Digit, s);
    let w = letter_len(text::after(s, n));
    let d = text::after(s, n + w);
    if n > 0 && w > 0 && d.len() > 0 && text::all_in(Class::Digit, d) {
        seq![text::head(s, n), text::after(s, n)]
    } else {
        seq![s]
    }
}

/// The letter of a pre-release at the head of a text.
pub open spec fn letter_len(s: Seq<char>) -> nat {
    if s.len() >= 1 && (s[0] == 'a' || s[0] == 'b' || s[0] == 'c') {
        1
    } else if s.len() >= 2 && s[0] == 'r' && s[1] == 'c' {
        2
    } else {
        0
    }
}

/// The components of a list of texts.
pub open spec fn split_items(items: Seq<Seq<char>>) -> Seq<Seq<char>>
    decreases items.len(),
{
    if items.len() == 0 {
        Seq::empty()
    } else {
        split_items(items.drop_last()) + split_item(items.last())
    }
}

/// The components of a version text: first the epoch, `0` where there is none, and then what
/// stands between the dots.
pub open spec fn version_split(s: Seq<char>) -> Seq<Seq<char>> {
    match text::last_of(s, '!') {
        Some(n) => seq![
            if n == 0 {
                "0"@
            } else {
                text::head(s, n)
            },
        ] + split_items(text::split(text::after(s, n + 1), grammar::dot())),
        None => seq!["0"@] + split_items(text::split(s, grammar::dot())),
    }
}

/// Components as a version text again. The first one is the epoch.
pub open spec fn version_join(components: Seq<Seq<char>>) -> Seq<char> {
    if components.len() == 0 {
        "!"@
    } else {
        components[0] + "!"@ + text::join(components.skip(1), grammar::dot())
    }
}

/// Whether a component is none of those for pre-releases, post-releases and development
/// releases.
pub open spec fn is_not_suffix(s: Seq<char>) -> bool {
    &&& !text::starts_with(s, "dev"@)
    &&& !text::starts_with(s, "a"@)
    &&& !text::starts_with(s, "b"@)
    &&& !text::starts_with(s, "rc"@)
    &&& !text::starts_with(s, "post"@)
}

/// How many components come before the first that is a suffix.
pub open spec fn plain_len(l: Seq<Seq<char>>) -> nat
    decreases l.len(),
{
    if l.len() > 0 && is_not_suffix(l[0]) {
        1 + plain_len(l.skip(1))
    } else {
        0
    }
}

/// Whether a component is a number.
pub open spec fn is_number(s: Seq<char>) -> bool {
    s.len() > 0 && text::all_in(Class::Digit, s)
}

/// How many components at the head are numbers.
pub open spec fn number_len(l: Seq<Seq<char>>) -> nat
    decreases l.len(),
{
    if l.len() > 0 && is_number(l[0]) {
        1 + number_len(l.skip(1))
    } else {
        0
    }
}

/// `n` zeros.
pub open spec fn zeros(n: nat) -> Seq<Seq<char>> {
    Seq::new(n, |i: int| "0"@)
}

/// Components with zeros after their numbers, so that there are at least `n` numbers.
pub open spec fn padded(l: Seq<Seq<char>>, n: nat) -> Seq<Seq<char>> {
    let m = number_len(l);
    l.take(m as int) + zeros(
        if n > m {
            (n - m) as nat
        } else {
            0
        },
    ) + l.skip(m as int)
}

// --- The operators. ---

/// A version without its local label.
pub open spec fn public(v: VersionSpec) -> VersionSpec {
    VersionSpec { local: None, ..v }
}

/// Whether the components of a version begin with those of a pattern. `base` is the pattern
/// without its `.*`.
pub open spec fn matches_prefix(v: VersionSpec, base: Seq<char>) -> bool {
    let want = version_split(canonical::canonicalize(base, false));
    let have = padded(version_split(canonical::public_text(v)), number_len(want));
    want.len() <= have.len() && have.take(want.len() as int) == want
}

/// A text without the `.*` at its end.
pub open spec fn without_star(t: Seq<char>) -> Seq<char> {
    t.take(t.len() - 2)
}

/// Whether a version is what follows `==`. Without a local label there, local labels do not
/// matter.
pub open spec fn equals(v: VersionSpec, t: Seq<char>) -> bool {
    if text::ends_with(t, clause::star()) {
        matches_prefix(v, without_star(t))
    } else {
        match version::parse_version(t) {
            Some(w) => if w.local is None {
                ranking::compare(public(v), w) == 0
            } else {
                ranking::compare(v, w) == 0
            },
            None => false,
        }
    }
}

/// The pattern that a compatible release has to match, without its `.*`: the numbers of the
/// version but for the last.
pub open spec fn compatible_base(t: Seq<char>) -> Seq<char> {
    let parts = version_split(t);
    let n = plain_len(parts);
    version_join(
        parts.take(
            if n > 0 {
                n - 1
            } else {
                0
            },
        ),
    )
}

/// Whether a version is a compatible release of what follows `~=`.
pub open spec fn is_compatible(v: VersionSpec, t: Seq<char>) -> bool {
    match version::parse_version(t) {
        Some(w) => ranking::compare(public(v), w) >= 0 && matches_prefix(v, compatible_base(t)),
        None => false,
    }
}

/// Whether a version is below what follows `<`. The pre-releases of a version are not below
/// it, unless it is a pre-release itself.
pub open spec fn is_below(v: VersionSpec, t: Seq<char>) -> bool {
    match version::parse_version(t) {
        Some(w) => {
            &&& ranking::compare(v, w) < 0
            &&& !(!version::is_prerelease(w) && version::is_prerelease(v) && ranking::same_base(
                v,
                w,
            ))
        },
        None => false,
    }
}

/// Whether a version is above what follows `>`. The post-releases of a version are not above
/// it, unless it is a post-release itself, and neither are its local versions.
pub open spec fn is_above(v: VersionSpec, t: Seq<char>) -> bool {
    match version::parse_version(t) {
        Some(w) => {
            &&& ranking::compare(v, w) > 0
            &&& !(w.post is None && v.post is Some && ranking::same_base(v, w))
            &&& !(v.local is Some && ranking::same_base(v, w))
        },
        None => false,
    }
}

/// Whether a version is what follows `===`: its canonical text, whatever the case of letters.
pub open spec fn is_arbitrary(v: VersionSpec, t: Seq<char>) -> bool {
    outside::lowercase(canonical::render(v)) == outside::lowercase(t)
}

/// Whether an operator and what follows it admit a version.
pub open spec fn admits(op: Operator, v: VersionSpec, t: Seq<char>) -> bool {
    match op {
        Operator::Arbitrary => is_arbitrary(v, t),
        Operator::Equal => equals(v, t),
        Operator::NotEqual => !equals(v, t),
        Operator::Compatible => is_compatible(v, t),
        Operator::AtMost => version::parse_version(t) matches Some(w) && ranking::compare(
            public(v),
            w,
        ) <= 0,
        Operator::AtLeast => version::parse_version(t) matches Some(w) && ranking::compare(
            public(v),
            w,
        ) >= 0,
        Operator::Below => is_below(v, t),
        Operator::Above => is_above(v, t),
    }
}

// --- Executable forms. ---

/// Lists of characters as texts.
pub open spec fn rows(l: Seq<Vec<char>>) -> Seq<Seq<char>> {
    l.map_values(|r: Vec<char>| r@)
}

/// A copy of a text.
fn copy_chars(s: &[char]) -> (r: Vec<char>)
    ensures
        r@ == s@,
{
    let mut out: Vec<char> = Vec::new();
    let mut i: usize = 0;
    while i < s.len()
        invariant
            i <= s@.len(),
            out@ == s@.take(i as int),
        decreases s@.len() - i,
    {
        out.push(s[i]);
        i += 1;
        assert(out@ =~= s@.take(i as int));
    }
    assert(s@.take(i as int) =~= s@);
    out
}

/// The letter of a pre-release at the head of a text.
fn scan_letter(s: &[char]) -> (r: usize)
    ensures
        r == letter_len(s@),
        r <= s@.len(),
{
    if s.len() >= 1 && (s[0] == 'a' || s[0] == 'b' || s[0] == 'c') {
        1
    } else if s.len() >= 2 && s[0] == 'r' && s[1] == 'c' {
        2
    } else {
        0
    }
}

/// Appends the components of one item.
fn push_item(out: &mut Vec<Vec<char>>, s: &[char])
    ensures
        rows(final(out)@) == rows(old(out)@) + split_item(s@),
{
    let n: usize = chars::run(&Class::Digit, s);
    let rest = chars::skip(s, n);
    let w: usize = scan_letter(rest);
    assert(s.len() == s@.len());
    let d = chars::skip(s, n + w);
    if n > 0 && w > 0 && d.len() > 0 && chars::all_in(&Class::Digit, d) {
        out.push(copy_chars(chars::take(s, n)));
        out.push(copy_chars(rest));
    } else {
        out.push(copy_chars(s));
    }
    assert(rows(out@) =~= rows(old(out)@) + split_item(s@));
}

/// The components of a version text.
fn split_version(s: &[char]) -> (r: Vec<Vec<char>>)
    ensures
        rows(r@) == version_split(s@),
{
    let mut out: Vec<Vec<char>> = Vec::new();
    assert(s.len() == s@.len());
    let rest = match chars::last_of(s, '!') {
        Some(n) => {
            if n == 0 {
                out.push(chars::chars_of("0"));
            } else {
                out.push(copy_chars(chars::take(s, n)));
            }
            chars::skip(s, n + 1)
        },
        None => {
            out.push(chars::chars_of("0"));
            s
        },
    };
    let ghost first = rows(out@);
    let marks = ['.'];
    assert(marks@ =~= grammar::dot());
    let items = chars::split(rest, &marks);
    let ghost texts = text::split(rest@, grammar::dot());
    let mut i: usize = 0;
    assert(rows(out@) =~= first + split_items(texts.take(0)));
    while i < items.len()
        invariant
            i <= items@.len(),
            chars::views(items@) == texts,
            rows(out@) == first + split_items(texts.take(i as int)),
        decreases items@.len() - i,
    {
        push_item(&mut out, items[i]);
        proof {
            assert(items@[i as int]@ == texts[i as int]);
            assert(texts.take(i + 1).drop_last() =~= texts.take(i as int));
            assert(rows(out@) =~= first + split_items(texts.take(i + 1)));
        }
        i += 1;
    }
    assert(texts.take(i as int) =~= texts);
    assert(rows(out@) =~= version_split(s@));
    out
}

/// How many components at the head are numbers.
fn count_numbers(l: &[Vec<char>]) -> (r: usize)
    ensures
        r == number_len(rows(l@)),
        r <= l@.len(),
{
    let mut i: usize = 0;
    let ghost all = rows(l@);
    assert(all.skip(0) =~= all);
    while i < l.len() && l[i].len() > 0 && chars::all_in(&Class::Digit, &l[i])
        invariant
            i <= l@.len(),
            all == rows(l@),
            number_len(all) == i + number_len(all.skip(i as int)),
        decreases l@.len() - i,
    {
        assert(all[i as int] == l@[i as int]@);
        assert(all.skip(i as int).skip(1) =~= all.skip(i + 1));
        i += 1;
    }
    assert(i < all.len() ==> all[i as int] == l@[i as int]@);
    i
}

/// Whether a component is not a suffix.
fn is_plain(s: &[char]) -> (r: bool)
    ensures
        r == is_not_suffix(s@),
{
    !chars::starts_with(s, "dev") && !chars::starts_with(s, "a") && !chars::starts_with(s, "b")
        && !chars::starts_with(s, "rc") && !chars::starts_with(s, "post")
}

/// How many components come before the first that is a suffix.
fn count_plain(l: &[Vec<char>]) -> (r: usize)
    ensures
        r == plain_len(rows(l@)),
        r <= l@.len(),
{
    let mut i: usize = 0;
    let ghost all = rows(l@);
    assert(all.skip(0) =~= all);
    while i < l.len() && is_plain(&l[i])
        invariant
            i <= l@.len(),
            all == rows(l@),
            plain_len(all) == i + plain_len(all.skip(i as int)),
        decreases l@.len() - i,
    {
        assert(all[i as int] == l@[i as int]@);
        assert(all.skip(i as int).skip(1) =~= all.skip(i + 1));
        i += 1;
    }
    assert(i < all.len() ==> all[i as int] == l@[i as int]@);
    i
}

/// Whether the components of a version, padded with zeros, begin with those of a pattern.
fn begins_padded(have: &[Vec<char>], want: &[Vec<char>]) -> (r: bool)
    ensures
        r == ({
            let all = padded(rows(have@), number_len(rows(want@)));
            want@.len() <= all.len() && all.take(want@.len() as int) == rows(want@)
        }),
{
    let m: usize = count_numbers(have);
    let n: usize = count_numbers(want);
    let extra: usize = if n > m {
        n - m
    } else {
        0
    };
    let ghost all = padded(rows(have@), number_len(rows(want@)));
    assert(all.len() == have@.len() + extra);
    let mut i: usize = 0;
    assert(have.len() == have@.len());
    assert(want.len() == want@.len());
    while i < want.len()
        invariant
            i <= want@.len(),
            m <= have@.len(),
            n <= want@.len(),
            m == number_len(rows(have@)),
            n == number_len(rows(want@)),
            extra == (if n > m {
                n - m
            } else {
                0
            }),
            all == padded(rows(have@), number_len(rows(want@))),
            all.len() == have@.len() + extra,
            i <= all.len(),
            all.take(i as int) == rows(want@).take(i as int),
        decreases want@.len() - i,
    {
        let zero = ['0'];
        proof {
            reveal_strlit("0");
            assert(zero@ =~= "0"@);
        }
        let same = if i < m {
            assert(all[i as int] == rows(have@)[i as int]);
            chars::same(&have[i], &want[i])
        } else if i - m < extra {
            assert(all[i as int] == "0"@);
            chars::same(&zero, &want[i])
        } else if i - extra < have.len() {
            assert(all[i as int] == rows(have@)[i - extra]);
            chars::same(&have[i - extra], &want[i])
        } else {
            return false;
        };
        assert(rows(want@)[i as int] == want@[i as int]@);
        if !same {
            assert(all.len() >= want@.len() ==> all.take(want@.len() as int)[i as int]
                != rows(want@)[i as int]);
            return false;
        }
        assert(all.take(i + 1) =~= all.take(i as int).push(all[i as int]));
        assert(rows(want@).take(i + 1) =~= rows(want@).take(i as int).push(
            rows(want@)[i as int],
        ));
        i += 1;
    }
    assert(rows(want@).take(i as int) =~= rows(want@));
    true
}

/// Appends the components as a version text.
fn join_version(components: &[Vec<char>]) -> (r: String)
    ensures
        r@ == version_join(rows(components@)),
{
    let ghost all = rows(components@);
    let mut out = String::new();
    if components.len() == 0 {
        out.push_str("!");
        assert(out@ =~= version_join(all));
        return out;
    }
    chars::push_chars(&mut out, &components[0]);
    out.push_str("!");
    let ghost first = out@;
    let ghost rest = all.skip(1);
    assert(first =~= all[0] + "!"@);
    let mut i: usize = 1;
    assert(out@ =~= first + text::join(rest.take(0), grammar::dot()));
    while i < components.len()
        invariant
            1 <= i <= components@.len(),
            all == rows(components@),
            rest == all.skip(1),
            out@ == first + text::join(rest.take(i - 1), grammar::dot()),
        decreases components@.len() - i,
    {
        if i > 1 {
            out.push('.');
        }
        chars::push_chars(&mut out, &components[i]);
        proof {
            let p = components@[i as int]@;
            assert(rest[i - 1] == p);
            assert(rest.take(i as int) =~= rest.take(i - 1).push(p));
            if i > 1 {
                text::lemma_join_push(rest.take(i - 1), p, grammar::dot());
            } else {
                assert(text::join(rest.take(1), grammar::dot()) == p);
            }
            assert(out@ =~= first + text::join(rest.take(i as int), grammar::dot()));
        }
        i += 1;
    }
    assert(rest.take(i - 1) =~= rest);
    out
}

/// The canonical text of what a text says as a version. A text that says none stays as it is.
pub fn canonicalize_version(version: &str, strip_trailing_zero: bool) -> (r: String)
    ensures
        r@ == canonical::canonicalize(version@, strip_trailing_zero),
{
    match Version::parse(version) {
        Ok(v) => v.canonical(strip_trailing_zero),
        Err(_) => chars::copy(version),
    }
}

/// Whether the components of a version begin with those of a pattern.
fn compare_prefix(v: &Version, base: &str) -> (r: bool)
    ensures
        r == matches_prefix(v@, base@),
{
    let want = split_version(&chars::chars_of(&canonicalize_version(base, false)));
    let have = split_version(&chars::chars_of(&v.public()));
    begins_padded(&have, &want)
}

/// `==`.
fn compare_equal(v: &Version, t: &str) -> (r: bool)
    ensures
        r == equals(v@, t@),
{
    let cs = chars::chars_of(t);
    if chars::ends_with(&cs, ".*") {
        proof {
            reveal_strlit(".*");
        }
        let base = chars::string_of(chars::take(&cs, cs.len() - 2));
        assert(base@ =~= without_star(t@));
        return compare_prefix(v, &base);
    }
    match Version::parse(t) {
        Ok(w) => if w.local_segments().is_none() {
            v.without_local() == w
        } else {
            *v == w
        },
        Err(_) => false,
    }
}

/// `~=`.
fn compare_compatible(v: &Version, t: &str) -> (r: bool)
    ensures
        r == is_compatible(v@, t@),
{
    let w = match Version::parse(t) {
        Ok(w) => w,
        Err(_) => return false,
    };
    let parts = split_version(&chars::chars_of(t));
    let n: usize = count_plain(&parts);
    let m: usize = if n > 0 {
        n - 1
    } else {
        0
    };
    let kept = vstd::slice::slice_subrange(parts.as_slice(), 0, m);
    assert(rows(kept@) =~= rows(parts@).take(m as int));
    let base = join_version(kept);
    v.without_local() >= w && compare_prefix(v, &base)
}

/// `<`.
fn compare_less_than(v: &Version, t: &str) -> (r: bool)
    ensures
        r == is_below(v@, t@),
{
    match Version::parse(t) {
        Ok(w) => *v < w && !(!w.is_prerelease() && v.is_prerelease() && v.same_base(&w)),
        Err(_) => false,
    }
}

/// `>`.
fn compare_greater_than(v: &Version, t: &str) -> (r: bool)
    ensures
        r == is_above(v@, t@),
{
    match Version::parse(t) {
        Ok(w) => *v > w && !(!w.is_postrelease() && v.is_postrelease() && v.same_base(&w)) && !(
        v.local_segments().is_some() && v.same_base(&w)),
        Err(_) => false,
    }
}

/// `===`.
fn compare_arbitrary(v: &Version, t: &str) -> (r: bool)
    ensures
        r == is_arbitrary(v@, t@),
{
    chars::same(&outside::to_lowercase(&v.to_string()), &outside::to_lowercase(t))
}

/// Whether an operator and what follows it admit a version.
pub fn operator_match(op: Operator, v: &Version, t: &str) -> (r: bool)
    ensures
        r == admits(op, v@, t@),
{
    match op {
        Operator::Arbitrary => compare_arbitrary(v, t),
        Operator::Equal => compare_equal(v, t),
        Operator::NotEqual => !compare_equal(v, t),
        Operator::Compatible => compare_compatible(v, t),
        Operator::AtMost => match Version::parse(t) {
            Ok(w) => v.without_local() <= w,
            Err(_) => false,
        },
        Operator::AtLeast => match Version::parse(t) {
            Ok(w) => v.without_local() >= w,
            Err(_) => false,
        },
        Operator::Below => compare_less_than(v, t),
        Operator::Above => compare_greater_than(v, t),
    }
}

} // verus!
