//! Laws of how versions are written: how the text of a version grows with its parts.

use vstd::prelude::*;

use crate::canonical;
use crate::grammar::{self, LocalPart, PreLetter, VersionSpec};
use crate::order_laws;
use crate::ranking;
use crate::text::{self, Class};
use crate::version::{self, VersionParts};
use crate::version_laws;

verus! {

// --- Numbers. ---

/// A number is written in decimal digits that say it, without zeros in front.
pub proof fn law_decimal(n: nat)
    ensures
        text::decimal(n).len() > 0,
        version_laws::all_figures(text::decimal(n)),
        text::number(text::decimal(n)) == n,
        text::decimal(n).len() > 1 ==> text::decimal(n)[0] != '0',
    decreases n,
{
    text::lemma_decimal(n);
    let d = text::decimal(n);
    assert forall|i: int| 0 <= i < d.len() implies version_laws::is_figure(#[trigger] d[i]) by {
        assert(text::in_class(Class::Digit, d[i]));
    }
    if n >= 10 {
        law_decimal(n / 10);
        let m = text::decimal(n / 10);
        assert(d[0] == m[0]);
        if n / 10 < 10 {
            assert(m.drop_last() =~= Seq::<char>::empty());
            assert(text::number(m.drop_last()) == 0);
            assert(text::number(m) == text::digit_value(m.last()));
        } else {
            text::lemma_decimal(n / 10 / 10);
            assert(m.len() > 1);
        }
    }
}

/// The number that digits say: each digit counts ten times what the next one counts.
pub proof fn law_number(digits: Seq<char>, d: nat)
    requires
        d < 10,
    ensures
        text::number(Seq::empty()) == 0,
        text::number(digits.push((('0' as int) + d) as char)) == 10 * text::number(digits) + d,
{
    let c = (('0' as int) + d) as char;
    assert(digits.push(c).drop_last() =~= digits);
    assert(digits.push(c).last() == c);
}

// --- The text of a version. ---

/// Whether a version is an epoch and a release alone.
pub open spec fn is_bare(v: VersionSpec) -> bool {
    v.pre is None && v.post is None && v.dev is None && v.local is None
}

/// A release is written as its numbers with dots between them.
pub proof fn law_write_release(v: VersionSpec, n: nat)
    requires
        is_bare(v),
    ensures
        v.release.len() == 0 && v.epoch == 0 ==> canonical::render(
            VersionSpec { release: seq![n], ..v },
        ) == text::decimal(n),
        v.release.len() > 0 ==> canonical::render(VersionSpec { release: v.release.push(n), ..v })
            == canonical::render(v) + "."@ + text::decimal(n),
{
    reveal_strlit(".");
    let d = text::decimal(n);
    if v.release.len() == 0 {
        let w = VersionSpec { release: seq![n], ..v };
        assert(canonical::decimals(w.release) =~= seq![d]);
        assert(canonical::release_text(w.release) == d);
        assert(canonical::render(w) =~= canonical::epoch_text(v.epoch) + d);
        if v.epoch == 0 {
            assert(canonical::render(w) =~= d);
        }
    } else {
        let w = VersionSpec { release: v.release.push(n), ..v };
        let ds = canonical::decimals(v.release);
        assert(canonical::decimals(w.release) =~= ds.push(d));
        text::lemma_join_push(ds, d, grammar::dot());
        assert(canonical::render(w) =~= canonical::render(v) + "."@ + d);
    }
}

/// An epoch other than zero is written before the rest with `!` between; zero is not written.
pub proof fn law_write_epoch(v: VersionSpec, n: nat)
    requires
        v.epoch == 0,
        n > 0,
    ensures
        canonical::render(VersionSpec { epoch: n, ..v }) == text::decimal(n) + "!"@
            + canonical::render(v),
{
    reveal_strlit("!");
    let w = VersionSpec { epoch: n, ..v };
    assert(canonical::render(w) =~= text::decimal(n) + "!"@ + canonical::render(v));
}

/// A pre-release is written behind the release: its letter and its number.
pub proof fn law_write_pre(v: VersionSpec, l: PreLetter, n: nat)
    requires
        is_bare(v),
    ensures
        canonical::render(VersionSpec { pre: Some((l, n)), ..v }) == canonical::render(v) + (match l {
            PreLetter::A => "a"@,
            PreLetter::B => "b"@,
            PreLetter::Rc => "rc"@,
        }) + text::decimal(n),
{
    let w = VersionSpec { pre: Some((l, n)), ..v };
    assert(canonical::render(w) =~= canonical::render(v) + l.spelling() + text::decimal(n));
}

/// A post-release is written behind that: `.post` and its number.
pub proof fn law_write_post(v: VersionSpec, n: nat)
    requires
        v.post is None && v.dev is None && v.local is None,
    ensures
        canonical::render(VersionSpec { post: Some(n), ..v }) == canonical::render(v) + ".post"@
            + text::decimal(n),
{
    let w = VersionSpec { post: Some(n), ..v };
    assert(canonical::render(w) =~= canonical::render(v) + ".post"@ + text::decimal(n));
}

/// A development release is written behind that: `.dev` and its number.
pub proof fn law_write_dev(v: VersionSpec, n: nat)
    requires
        v.dev is None && v.local is None,
    ensures
        canonical::render(VersionSpec { dev: Some(n), ..v }) == canonical::render(v) + ".dev"@
            + text::decimal(n),
{
    let w = VersionSpec { dev: Some(n), ..v };
    assert(canonical::render(w) =~= canonical::render(v) + ".dev"@ + text::decimal(n));
}

/// A local label is written last: `+`, and its segments with dots between them.
pub proof fn law_write_local(v: VersionSpec, l: Seq<LocalPart>, p: LocalPart)
    requires
        v.local is None,
    ensures
        ({
            let t = match p {
                LocalPart::Number(n) => text::decimal(n),
                LocalPart::Text(t) => t,
            };
            let with = |m: Seq<LocalPart>| VersionSpec { local: Some(m), ..v };
            &&& canonical::render(with(seq![p])) == canonical::render(v) + "+"@ + t
            &&& canonical::opt_label(Some(seq![p])) == Some(t)
            &&& l.len() > 0 ==> canonical::render(with(l.push(p))) == canonical::render(with(l))
                + "."@ + t
            &&& l.len() > 0 ==> canonical::opt_label(Some(l.push(p))) == Some(
                canonical::opt_label(Some(l)).unwrap() + "."@ + t,
            )
        }),
{
    reveal_strlit(".");
    let t = canonical::part_text(p);
    let with = |m: Seq<LocalPart>| VersionSpec { local: Some(m), ..v };
    assert(canonical::part_texts(seq![p]) =~= seq![t]);
    assert(canonical::label_text(seq![p]) == t);
    assert(canonical::render(with(seq![p])) =~= canonical::render(v) + "+"@ + t);
    if l.len() > 0 {
        let ts = canonical::part_texts(l);
        assert(canonical::part_texts(l.push(p)) =~= ts.push(t));
        text::lemma_join_push(ts, t, grammar::dot());
        assert(canonical::label_text(l.push(p)) =~= canonical::label_text(l) + "."@ + t);
        assert(canonical::render(with(l.push(p))) =~= canonical::render(with(l)) + "."@ + t);
    }
}

/// The public text leaves out the local label, and the base text all but the epoch and the
/// release.
pub proof fn law_public_and_base(v: VersionSpec)
    ensures
        canonical::public_text(v) == canonical::render(VersionSpec { local: None, ..v }),
        canonical::base_text(v) == canonical::render(
            VersionSpec { pre: None, post: None, dev: None, local: None, ..v },
        ),
        canonical::opt_label(v.local) is Some <==> v.local is Some,
{
    let w = VersionSpec { local: None, ..v };
    assert(canonical::render(w) =~= canonical::public_text(v));
    let b = VersionSpec { pre: None, post: None, dev: None, local: None, ..v };
    assert(canonical::render(b) =~= canonical::base_text(v));
}

// --- Releases without zeros at their ends. ---

/// A release without the zeros at its end begins the release, has the same numbers where missing
/// ones are zeros, and ends in a number other than zero unless it is a single number.
pub proof fn law_release_trimmed(r: Seq<nat>, i: int)
    requires
        r.len() > 0,
        0 <= i,
    ensures
        ({
            let t = version::trim_keeping_one(r);
            &&& 0 < t.len() <= r.len()
            &&& t.len() == 1 || t.last() != 0
            &&& order_laws::number_at(t, i) == order_laws::number_at(r, i)
        }),
{
    version::lemma_trim_keeping_one(r);
    order_laws::lemma_trim_numbers(r, i);
    order_laws::lemma_trim_numbers(r, 0);
    let z = ranking::trim_release(r);
    if z.len() == 0 {
        assert(version::trim_keeping_one(r) == seq![0nat]);
    }
}

/// The first three numbers of a release, zero where one is missing.
pub proof fn law_components(r: Seq<nat>, i: int)
    requires
        0 <= i,
    ensures
        version::component(r, i) == order_laws::number_at(r, i),
{
}

/// A pre-release has a letter or is a development release.
pub proof fn law_is_prerelease(v: VersionSpec)
    ensures
        version::is_prerelease(v) <==> v.pre is Some || v.dev is Some,
{
}

// --- Canonical texts. ---

/// The canonical text of a text that says no version is that text. Otherwise it is the canonical
/// text of the version, or where zeros are stripped, of the equal version whose release has no
/// zeros at its end but for a single number.
pub proof fn law_canonicalize(s: Seq<char>, v: VersionSpec, r: Seq<nat>)
    ensures
        version::parse_version(s) is None ==> canonical::canonicalize(s, true) == s
            && canonical::canonicalize(s, false) == s,
        version::parse_version(s) == Some(v) ==> canonical::canonicalize(s, false)
            == canonical::render(v),
        version::parse_version(s) == Some(v) && r.len() > 0 && (r.len() == 1 || r.last() != 0) && (
        forall|i: int|
            0 <= i ==> #[trigger] order_laws::number_at(r, i) == order_laws::number_at(v.release, i))
            ==> canonical::canonicalize(s, true) == canonical::render(
            VersionSpec { release: r, ..v },
        ),
{
    if version::parse_version(s) == Some(v) && r.len() > 0 && (r.len() == 1 || r.last() != 0) && (
    forall|i: int|
        0 <= i ==> #[trigger] order_laws::number_at(r, i) == order_laws::number_at(v.release, i)) {
        version::lemma_parse_valid(s);
        let t = version::trim_keeping_one(v.release);
        law_release_trimmed(v.release, 0);
        assert forall|i: int| 0 <= i implies #[trigger] order_laws::number_at(t, i)
            == order_laws::number_at(r, i) by {
            law_release_trimmed(v.release, i);
            assert(order_laws::number_at(r, i) == order_laws::number_at(v.release, i));
        }
        if t.len() > r.len() {
            assert(order_laws::number_at(t, t.len() - 1) == order_laws::number_at(r, t.len() - 1));
        }
        if r.len() > t.len() {
            assert(order_laws::number_at(t, r.len() - 1) == order_laws::number_at(r, r.len() - 1));
        }
        assert forall|i: int| 0 <= i < t.len() implies t[i] == r[i] by {
            assert(order_laws::number_at(t, i) == order_laws::number_at(r, i));
        }
        assert(t =~= r);
    }
}

// --- Versions from parts. ---

/// Parts without a local label make a version exactly where there is a release, and it has those
/// parts.
pub proof fn law_from_parts(p: VersionParts)
    ensures
        p.local is None ==> (version::parts_error(p) is None <==> p.release@.len() > 0),
        p.release@.len() == 0 ==> version::parts_error(p) is Some,
        ({
            let v = version::parts_version(p);
            &&& v.epoch == p.epoch
            &&& v.release.len() == p.release@.len()
            &&& forall|i: int| 0 <= i < p.release@.len() ==> #[trigger] v.release[i] == p.release@[i]
            &&& match p.pre {
                Some((l, n)) => v.pre == Some((l, n as nat)),
                None => v.pre is None,
            }
            &&& match p.post {
                Some(n) => v.post == Some(n as nat),
                None => v.post is None,
            }
            &&& match p.dev {
                Some(n) => v.dev == Some(n as nat),
                None => v.dev is None,
            }
            &&& v.local is Some <==> p.local is Some
        }),
{
}

/// A well-written label with numbers of 64 bits is taken, and says its segments. A label that is
/// empty or holds a character that no label holds is refused.
pub proof fn law_from_parts_label(
    p: VersionParts,
    label: String,
    segments: Seq<Seq<char>>,
    marks: Seq<char>,
)
    requires
        p.local == Some(label),
        p.release@.len() > 0,
    ensures
        version_laws::well_labelled(segments, marks) && label@ == version_laws::label_of(
            segments,
            marks,
        ) ==> {
            let l = segments.map_values(|t: Seq<char>| version_laws::part_of(t));
            let small = forall|i: int|
                0 <= i < l.len() ==> (#[trigger] l[i] matches LocalPart::Number(n) ==> n
                    <= u64::MAX);
            &&& version::parts_error(p) is None <==> small
            &&& version::parts_version(p).local == Some(l)
        },
        label@.len() == 0 ==> version::parts_error(p) is Some,
{
    if version_laws::well_labelled(segments, marks) && label@ == version_laws::label_of(
        segments,
        marks,
    ) {
        version_laws::lemma_label(segments, marks);
        let l = segments.map_values(|t: Seq<char>| version_laws::part_of(t));
        let x = grammar::local_parts(label@);
        assert forall|i: int| 0 <= i < x.len() implies x[i] == l[i] by {
            version_laws::lemma_segment_part(segments, marks, i);
        }
        assert(x =~= l);
        if forall|i: int|
            0 <= i < l.len() ==> (#[trigger] l[i] matches LocalPart::Number(n) ==> n <= u64::MAX) {
            assert forall|i: int| 0 <= i < l.len() implies version::small_part(#[trigger] l[i]) by {}
        }
        if version::small_local(l) {
            assert forall|i: int| 0 <= i < l.len() implies (#[trigger] l[i] matches
                LocalPart::Number(n) ==> n <= u64::MAX) by {
                assert(version::small_part(l[i]));
            }
        }
    }
}

} // verus!
