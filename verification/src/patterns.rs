//! What patterns and compatible releases mean in numbers.

use vstd::prelude::*;

use crate::canonical;
use crate::clause;
use crate::grammar::{self, PreLetter, VersionSpec};
use crate::matching;
use crate::ranking;
use crate::text::{self, Class};
use crate::version;

verus! {

/// The components that follow the release: those for pre-releases, post-releases and
/// development releases.
pub open spec fn suffixes(v: VersionSpec) -> Seq<Seq<char>> {
    (if v.pre is Some {
        seq![canonical::pre_text(v.pre)]
    } else {
        seq![]
    }) + late_suffixes(v)
}

/// The components for post-releases and development releases.
pub open spec fn late_suffixes(v: VersionSpec) -> Seq<Seq<char>> {
    (match v.post {
        Some(n) => seq!["post"@ + text::decimal(n)],
        None => seq![],
    }) + (match v.dev {
        Some(n) => seq!["dev"@ + text::decimal(n)],
        None => seq![],
    })
}

/// What stands between the dots of a version text.
spec fn items(v: VersionSpec) -> Seq<Seq<char>> {
    let r = canonical::decimals(v.release);
    r.drop_last().push(r.last() + canonical::pre_text(v.pre)) + late_suffixes(v)
}

proof fn lemma_split_items_add(a: Seq<Seq<char>>, b: Seq<Seq<char>>)
    ensures
        matching::split_items(a + b) == matching::split_items(a) + matching::split_items(b),
    decreases b.len(),
{
    if b.len() == 0 {
        assert(a + b =~= a);
        assert(matching::split_items(a) + matching::split_items(b) =~= matching::split_items(a));
    } else {
        lemma_split_items_add(a, b.drop_last());
        assert((a + b).drop_last() =~= a + b.drop_last());
        assert(matching::split_items(a) + matching::split_items(b) =~= matching::split_items(a)
            + matching::split_items(b.drop_last()) + matching::split_item(b.last()));
    }
}

/// Items that are each one component.
proof fn lemma_split_items_same(a: Seq<Seq<char>>)
    requires
        forall|i: int|
            0 <= i < a.len() ==> matching::split_item(#[trigger] a[i]) == seq![a[i]],
    ensures
        matching::split_items(a) == a,
    decreases a.len(),
{
    if a.len() > 0 {
        lemma_split_items_same(a.drop_last());
        assert(a.drop_last() + seq![a.last()] =~= a);
    }
}

proof fn lemma_digits_item(n: nat)
    ensures
        matching::split_item(text::decimal(n)) == seq![text::decimal(n)],
        matching::is_number(text::decimal(n)),
{
    let d = text::decimal(n);
    text::lemma_decimal(n);
    text::lemma_run_concat(Class::Digit, d, Seq::empty());
    assert(d + Seq::<char>::empty() =~= d);
    assert(text::after(d, d.len()).len() == 0);
}

proof fn lemma_word_item(s: Seq<char>)
    requires
        s.len() > 0,
        !text::is_digit(s[0]),
    ensures
        matching::split_item(s) == seq![s],
        !matching::is_number(s),
{
    assert(text::run(Class::Digit, s) == 0);
    if text::all_in(Class::Digit, s) {
        assert(text::in_class(Class::Digit, s[0]));
    }
}

proof fn lemma_pre_item(n: nat, l: PreLetter, k: nat)
    ensures
        ({
            let p = canonical::pre_text(Some((l, k)));
            &&& matching::split_item(text::decimal(n) + p) == seq![text::decimal(n), p]
            &&& p.len() > 0
            &&& !text::is_digit(p[0])
            &&& !matching::is_not_suffix(p)
        }),
{
    reveal_strlit("a");
    reveal_strlit("b");
    reveal_strlit("rc");
    let d = text::decimal(n);
    let e = text::decimal(k);
    let w = l.spelling();
    let p = w + e;
    let s = d + p;
    text::lemma_decimal(n);
    text::lemma_decimal(k);
    assert(p[0] == w[0]);
    text::lemma_run_concat(Class::Digit, d, p);
    assert(text::head(s, d.len()) =~= d);
    assert(text::after(s, d.len()) =~= p);
    assert(matching::letter_len(p) == w.len()) by {
        if l == PreLetter::Rc {
            assert(p[1] == w[1]);
        }
    }
    assert(text::after(s, d.len() + w.len()) =~= e);
    assert(p.take(w.len() as int) =~= w);
    assert(text::starts_with(p, w));
}

proof fn lemma_late_items(v: VersionSpec)
    ensures
        matching::split_items(late_suffixes(v)) == late_suffixes(v),
        forall|i: int|
            0 <= i < late_suffixes(v).len() ==> (#[trigger] late_suffixes(v)[i]).len() > 0
                && !text::is_digit(late_suffixes(v)[i][0]) && !matching::is_not_suffix(
                late_suffixes(v)[i],
            ),
{
    reveal_strlit("post");
    reveal_strlit("dev");
    let a = late_suffixes(v);
    assert forall|i: int| 0 <= i < a.len() implies (#[trigger] a[i]).len() > 0 && !text::is_digit(
        a[i][0],
    ) && !matching::is_not_suffix(a[i]) by {
        if v.post is Some && i == 0 {
            assert(a[i] == "post"@ + text::decimal(v.post.unwrap()));
            assert(a[i].take(4) =~= "post"@);
            assert(text::starts_with(a[i], "post"@));
        } else {
            assert(a[i] == "dev"@ + text::decimal(v.dev.unwrap()));
            assert(a[i].take(3) =~= "dev"@);
            assert(text::starts_with(a[i], "dev"@));
        }
    }
    assert forall|i: int| 0 <= i < a.len() implies matching::split_item(#[trigger] a[i])
        == seq![a[i]] by {
        lemma_word_item(a[i]);
    }
    lemma_split_items_same(a);
}

/// The components of the items of a version.
proof fn lemma_items(v: VersionSpec)
    requires
        v.release.len() > 0,
    ensures
        matching::split_items(items(v)) == canonical::decimals(v.release) + suffixes(v),
{
    let r = canonical::decimals(v.release);
    let a = r.drop_last();
    let last = r.last() + canonical::pre_text(v.pre);
    assert forall|i: int| 0 <= i < a.len() implies matching::split_item(#[trigger] a[i])
        == seq![a[i]] by {
        lemma_digits_item(v.release[i]);
    }
    lemma_split_items_same(a);
    lemma_late_items(v);
    lemma_split_items_add(a.push(last), late_suffixes(v));
    assert(a.push(last).drop_last() =~= a);
    let n = v.release.last();
    assert(r.last() == text::decimal(n));
    match v.pre {
        Some((l, k)) => {
            lemma_pre_item(n, l, k);
            assert(matching::split_items(items(v)) =~= r + suffixes(v));
        },
        None => {
            assert(last =~= text::decimal(n));
            lemma_digits_item(n);
            assert(matching::split_items(items(v)) =~= r + suffixes(v));
        },
    }
}

proof fn lemma_not_contains_digits(n: nat, c: char)
    requires
        !text::is_digit(c),
    ensures
        !text::decimal(n).contains(c),
{
    text::lemma_decimal(n);
    let d = text::decimal(n);
    if d.contains(c) {
        let i = choose|i: int| 0 <= i < d.len() && d[i] == c;
        assert(text::in_class(Class::Digit, d[i]));
    }
}

proof fn lemma_not_contains_add(a: Seq<char>, b: Seq<char>, c: char)
    requires
        !a.contains(c),
        !b.contains(c),
    ensures
        !(a + b).contains(c),
{
    let s = a + b;
    if s.contains(c) {
        let i = choose|i: int| 0 <= i < s.len() && s[i] == c;
        if i < a.len() {
            assert(a[i] == c);
        } else {
            assert(b[i - a.len()] == c);
        }
    }
}

/// Neither dots nor exclamation marks stand in the items of a version.
proof fn lemma_items_marks(v: VersionSpec, c: char)
    requires
        v.release.len() > 0,
        c == '.' || c == '!',
    ensures
        forall|i: int| 0 <= i < items(v).len() ==> !(#[trigger] items(v)[i]).contains(c),
{
    reveal_strlit("post");
    reveal_strlit("dev");
    reveal_strlit("a");
    reveal_strlit("b");
    reveal_strlit("rc");
    let a = items(v);
    let r = v.release;
    assert forall|i: int| 0 <= i < a.len() implies !(#[trigger] a[i]).contains(c) by {
        if i < r.len() - 1 {
            lemma_not_contains_digits(r[i], c);
        } else if i == r.len() - 1 {
            lemma_not_contains_digits(r.last(), c);
            assert(!canonical::pre_text(v.pre).contains(c)) by {
                if let Some((l, k)) = v.pre {
                    lemma_not_contains_digits(k, c);
                    lemma_not_contains_add(l.spelling(), text::decimal(k), c);
                }
            }
            lemma_not_contains_add(text::decimal(r.last()), canonical::pre_text(v.pre), c);
        } else if v.post is Some && i == r.len() {
            let n = v.post.unwrap();
            lemma_not_contains_digits(n, c);
            lemma_not_contains_add("post"@, text::decimal(n), c);
        } else {
            let n = v.dev.unwrap();
            lemma_not_contains_digits(n, c);
            lemma_not_contains_add("dev"@, text::decimal(n), c);
        }
    }
}

proof fn lemma_join_tail(a: Seq<Seq<char>>, p: Seq<char>, tail: Seq<char>)
    ensures
        text::join(a.push(p + tail), grammar::dot()) == text::join(a.push(p), grammar::dot())
            + tail,
{
    if a.len() == 0 {
        assert(text::join(a.push(p + tail), grammar::dot()) =~= p + tail);
        assert(text::join(a.push(p), grammar::dot()) =~= p);
    } else {
        text::lemma_join_push(a, p + tail, grammar::dot());
        text::lemma_join_push(a, p, grammar::dot());
        let j = text::join(a, grammar::dot());
        assert(j + grammar::dot() + (p + tail) =~= j + grammar::dot() + p + tail);
    }
}

/// The text of a version without its local label is its items with dots between them.
proof fn lemma_public_items(v: VersionSpec)
    requires
        v.release.len() > 0,
    ensures
        canonical::public_text(v) == canonical::epoch_text(v.epoch) + text::join(
            items(v),
            grammar::dot(),
        ),
{
    reveal_strlit("post");
    reveal_strlit("dev");
    reveal_strlit(".post");
    reveal_strlit(".dev");
    let r = canonical::decimals(v.release);
    let a = r.drop_last();
    let last = r.last() + canonical::pre_text(v.pre);
    let rt = canonical::release_text(v.release);
    let d = grammar::dot();
    assert(a.push(r.last()) =~= r);
    lemma_join_tail(a, r.last(), canonical::pre_text(v.pre));
    let b0 = a.push(last);
    assert(text::join(b0, d) == rt + canonical::pre_text(v.pre));
    let b1 = match v.post {
        Some(n) => b0.push("post"@ + text::decimal(n)),
        None => b0,
    };
    assert(text::join(b1, d) =~= rt + canonical::pre_text(v.pre) + canonical::post_text(v.post)) by {
        if let Some(n) = v.post {
            text::lemma_join_push(b0, "post"@ + text::decimal(n), d);
            assert(d + ("post"@ + text::decimal(n)) =~= ".post"@ + text::decimal(n));
        }
    }
    let b2 = match v.dev {
        Some(n) => b1.push("dev"@ + text::decimal(n)),
        None => b1,
    };
    assert(text::join(b2, d) =~= rt + canonical::pre_text(v.pre) + canonical::post_text(v.post)
        + canonical::dev_text(v.dev)) by {
        if let Some(n) = v.dev {
            text::lemma_join_push(b1, "dev"@ + text::decimal(n), d);
            assert(d + ("dev"@ + text::decimal(n)) =~= ".dev"@ + text::decimal(n));
        }
    }
    assert(b2 =~= items(v));
    assert(canonical::public_text(v) =~= canonical::epoch_text(v.epoch) + text::join(b2, d));
}

/// The components of a version text: the epoch, the release and the suffixes.
proof fn lemma_version_split(v: VersionSpec)
    requires
        v.release.len() > 0,
    ensures
        matching::version_split(canonical::public_text(v)) == seq![text::decimal(v.epoch)]
            + canonical::decimals(v.release) + suffixes(v),
{
    let s = canonical::public_text(v);
    let rest = text::join(items(v), grammar::dot());
    lemma_public_items(v);
    lemma_items(v);
    lemma_items_marks(v, '!');
    lemma_items_marks(v, '.');
    if rest.contains('!') {
        text::lemma_join_within(items(v), grammar::dot(), '!');
        let i = choose|i: int|
            0 <= i < items(v).len() && (#[trigger] items(v)[i]).contains('!');
        assert(!items(v)[i].contains('!'));
    }
    assert(grammar::dot()[0] == '.');
    assert(grammar::dot().contains('.'));
    let it = items(v);
    assert forall|i: int, j: int|
        0 <= i < it.len() && 0 <= j < it[i].len() implies !grammar::dot().contains(
        #[trigger] it[i][j],
    ) by {
        assert(it[i].contains(it[i][j]));
    }
    text::lemma_split_join(it, '.', grammar::dot());
    assert(seq!['.'] =~= grammar::dot());
    let d = text::decimal(v.epoch);
    reveal_strlit("0");
    if v.epoch == 0 {
        assert(s =~= rest);
        text::lemma_last_of_none(s, '!');
        assert("0"@ =~= d);
    } else {
        text::lemma_decimal(v.epoch);
        assert(s =~= d.push('!') + rest);
        text::lemma_last_of(d, '!', rest);
        assert(text::head(s, d.len()) =~= d);
        assert(text::after(s, d.len() + 1) =~= rest);
    }
    assert(matching::version_split(s) =~= seq![d] + canonical::decimals(v.release) + suffixes(v));
}

/// How many numbers the components of a version begin with.
proof fn lemma_number_len(l: Seq<Seq<char>>, n: int)
    requires
        0 <= n <= l.len(),
        forall|i: int| 0 <= i < n ==> matching::is_number(#[trigger] l[i]),
        n < l.len() ==> !matching::is_number(l[n]),
    ensures
        matching::number_len(l) == n,
    decreases l.len(),
{
    if n > 0 {
        let t = l.skip(1);
        assert(matching::is_number(l[0]));
        assert forall|i: int| 0 <= i < n - 1 implies matching::is_number(#[trigger] t[i]) by {
            assert(t[i] == l[i + 1]);
        }
        lemma_number_len(t, n - 1);
    }
}

/// How many components come before the suffixes.
proof fn lemma_plain_len(l: Seq<Seq<char>>, n: int)
    requires
        0 <= n <= l.len(),
        forall|i: int| 0 <= i < n ==> matching::is_not_suffix(#[trigger] l[i]),
        n < l.len() ==> !matching::is_not_suffix(l[n]),
    ensures
        matching::plain_len(l) == n,
    decreases l.len(),
{
    if n > 0 {
        let t = l.skip(1);
        assert(matching::is_not_suffix(l[0]));
        assert forall|i: int| 0 <= i < n - 1 implies matching::is_not_suffix(#[trigger] t[i]) by {
            assert(t[i] == l[i + 1]);
        }
        lemma_plain_len(t, n - 1);
    }
}

/// The numbers of a version, the epoch first.
spec fn numbers(v: VersionSpec) -> Seq<Seq<char>> {
    seq![text::decimal(v.epoch)] + canonical::decimals(v.release)
}

proof fn lemma_numbers(v: VersionSpec)
    requires
        v.release.len() > 0,
    ensures
        matching::version_split(canonical::public_text(v)) == numbers(v) + suffixes(v),
        matching::number_len(numbers(v) + suffixes(v)) == 1 + v.release.len(),
        matching::plain_len(numbers(v) + suffixes(v)) == 1 + v.release.len(),
{
    lemma_version_split(v);
    let all = numbers(v) + suffixes(v);
    let n = 1 + v.release.len() as int;
    assert forall|i: int| 0 <= i < n implies matching::is_number(#[trigger] all[i])
        && matching::is_not_suffix(all[i]) by {
        let k = if i == 0 {
            v.epoch
        } else {
            v.release[i - 1]
        };
        assert(all[i] == text::decimal(k));
        lemma_digits_item(k);
        lemma_number_plain(all[i]);
    }
    if n < all.len() {
        assert(all[n] == suffixes(v)[0]);
        match v.pre {
            Some((l, k)) => {
                lemma_pre_item(0, l, k);
                lemma_word_item(all[n]);
            },
            None => {
                lemma_late_items(v);
                assert(suffixes(v)[0] == late_suffixes(v)[0]);
                lemma_word_item(all[n]);
            },
        }
    }
    lemma_number_len(all, n);
    lemma_plain_len(all, n);
}

proof fn lemma_number_plain(s: Seq<char>)
    requires
        matching::is_number(s),
    ensures
        matching::is_not_suffix(s),
{
    reveal_strlit("dev");
    reveal_strlit("a");
    reveal_strlit("b");
    reveal_strlit("rc");
    reveal_strlit("post");
    assert(text::in_class(Class::Digit, s[0]));
    if text::starts_with(s, "dev"@) {
        assert(s.take(3)[0] == s[0]);
    }
    if text::starts_with(s, "a"@) {
        assert(s.take(1)[0] == s[0]);
    }
    if text::starts_with(s, "b"@) {
        assert(s.take(1)[0] == s[0]);
    }
    if text::starts_with(s, "rc"@) {
        assert(s.take(2)[0] == s[0]);
    }
    if text::starts_with(s, "post"@) {
        assert(s.take(4)[0] == s[0]);
    }
}

/// Whether a release begins with some numbers, where missing numbers count as zeros.
pub open spec fn begins(r: Seq<nat>, head: Seq<nat>) -> bool {
    forall|i: int| 0 <= i < head.len() ==> version::component(r, i) == #[trigger] head[i]
}

proof fn lemma_prefix(v: VersionSpec, base: Seq<char>, w: VersionSpec)
    requires
        v.release.len() > 0,
        version::is_version(w),
        version::parse_version(base) == Some(w),
        w.pre is None,
        w.post is None,
        w.dev is None,
        w.local is None,
    ensures
        matching::matches_prefix(v, base) <==> v.epoch == w.epoch && begins(v.release, w.release),
{
    let want = numbers(w);
    assert(suffixes(w) =~= Seq::empty());
    assert(numbers(w) + suffixes(w) =~= numbers(w));
    assert(canonical::public_text(w) =~= canonical::render(w));
    lemma_numbers(w);
    lemma_numbers(v);
    let m = (1 + v.release.len()) as int;
    let n = (1 + w.release.len()) as int;
    let all = numbers(v) + suffixes(v);
    let have = matching::padded(all, n as nat);
    assert(all.take(m) =~= numbers(v));
    reveal_strlit("0");
    assert("0"@ =~= text::decimal(0));
    text::lemma_decimal(v.epoch);
    text::lemma_decimal(w.epoch);
    assert(have[0] == text::decimal(v.epoch));
    assert(want[0] == text::decimal(w.epoch));
    assert forall|i: int| 0 <= i < w.release.len() implies have[i + 1] == text::decimal(
        version::component(v.release, i),
    ) && #[trigger] want[i + 1] == text::decimal(w.release[i]) by {
        if i < v.release.len() {
            assert(have[i + 1] == numbers(v)[i + 1]);
        } else {
            assert(have[i + 1] == "0"@);
        }
    }
    if v.epoch == w.epoch && begins(v.release, w.release) {
        assert(have.take(n) =~= want) by {
            assert forall|i: int| 0 <= i < n implies have.take(n)[i] == #[trigger] want[i] by {
                if i > 0 {
                    assert(want[(i - 1) + 1] == text::decimal(w.release[i - 1]));
                }
            }
        }
    }
    if have.take(n) == want {
        assert(have.take(n)[0] == want[0]);
        assert forall|i: int| 0 <= i < w.release.len() implies version::component(v.release, i)
            == #[trigger] w.release[i] by {
            assert(have.take(n)[i + 1] == want[i + 1]);
            text::lemma_decimal(w.release[i]);
            text::lemma_decimal(version::component(v.release, i));
        }
    }
}

/// What a pattern admits: `==V.*` admits the versions with the epoch of `V` whose release
/// begins with the numbers of `V`, where missing numbers count as zeros. Nothing else of the
/// version matters.
pub proof fn law_pattern(v: VersionSpec, base: Seq<char>)
    requires
        version::is_version(v),
        version::parse_version(base) matches Some(w) && w.pre is None && w.post is None
            && w.dev is None && w.local is None,
    ensures
        ({
            let w = version::parse_version(base).unwrap();
            matching::equals(v, base + clause::star()) <==> v.epoch == w.epoch && begins(
                v.release,
                w.release,
            )
        }),
{
    reveal_strlit(".*");
    let t = base + clause::star();
    assert(t.skip(t.len() - 2) =~= clause::star());
    assert(matching::without_star(t) =~= base);
    version::lemma_parse_valid(base);
    lemma_prefix(v, base, version::parse_version(base).unwrap());
}

/// What a compatible release is: `~=V` admits the versions that are not before `V` and that
/// `==P.*` admits, where `P` is `V` without the last number of its release and what follows it.
/// For `V` in its canonical form that means the epoch of `V` and the numbers of its release but
/// for the last.
pub proof fn law_compatible(v: VersionSpec, w: VersionSpec)
    requires
        version::is_version(v),
        version::is_version(w),
        version::fits(w),
        w.local is None,
        w.release.len() >= 2,
    ensures
        matching::is_compatible(v, canonical::render(w)) <==> ranking::compare(
            matching::public(v),
            w,
        ) >= 0 && v.epoch == w.epoch && begins(v.release, w.release.drop_last()),
{
    let t = canonical::render(w);
    canonical::law_parse_render(w);
    assert(canonical::public_text(w) =~= t);
    lemma_numbers(w);
    let all = numbers(w) + suffixes(w);
    let n = w.release.len() as int;
    let b = VersionSpec {
        epoch: w.epoch,
        release: w.release.drop_last(),
        pre: None,
        post: None,
        dev: None,
        local: None,
    };
    let ds = canonical::decimals(b.release);
    assert(all.take(n) =~= seq![text::decimal(w.epoch)] + ds);
    assert(all.take(n).skip(1) =~= ds);
    let base = matching::compatible_base(t);
    assert(base == text::decimal(w.epoch) + "!"@ + canonical::release_text(b.release));
    canonical::lemma_full_epoch(b);
    assert(version::parse_version(base) == Some(b));
    lemma_prefix(v, base, b);
}

/// `~=V` admits what both `>=V` and `==P.*` admit, where `P` is made of the numbers of `V` but
/// for the last.
pub proof fn law_compatible_parts(v: VersionSpec, t: Seq<char>)
    ensures
        matching::is_compatible(v, t) <==> matching::admits(clause::Operator::AtLeast, v, t)
            && matching::equals(v, matching::compatible_base(t) + clause::star()),
{
    reveal_strlit(".*");
    let b = matching::compatible_base(t);
    let s = b + clause::star();
    assert(s.skip(s.len() - 2) =~= clause::star());
    assert(matching::without_star(s) =~= b);
}

proof fn lemma_trimmed_component(r: Seq<nat>, i: int)
    ensures
        version::component(ranking::trim_release(r), i) == version::component(r, i),
    decreases r.len(),
{
    if r.len() > 0 && r.last() == 0 {
        lemma_trimmed_component(r.drop_last(), i);
    }
}

/// Equal versions match the same patterns.
pub proof fn law_equal_pattern(a: VersionSpec, b: VersionSpec, base: Seq<char>)
    requires
        version::is_version(a),
        version::is_version(b),
        ranking::compare(a, b) == 0,
        version::parse_version(base) matches Some(w) && w.pre is None && w.post is None
            && w.dev is None && w.local is None,
    ensures
        matching::equals(a, base + clause::star()) == matching::equals(b, base + clause::star()),
{
    let w = version::parse_version(base).unwrap();
    law_pattern(a, base);
    law_pattern(b, base);
    ranking::law_total_order(a, b, b);
    assert(ranking::trimmed(a).release == ranking::trimmed(b).release);
    assert forall|i: int| version::component(a.release, i) == version::component(b.release, i) by {
        lemma_trimmed_component(a.release, i);
        lemma_trimmed_component(b.release, i);
    }
}

} // verus!
