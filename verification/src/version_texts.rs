//! Which texts are versions: only those that are spelled as versions are.

use vstd::prelude::*;

use crate::grammar;
use crate::text::{self, Class};
use crate::version;
use crate::version_laws::{self, Spelled, Written};

verus! {

/// Whether a text is of ASCII characters without capitals.
pub open spec fn is_low(s: Seq<char>) -> bool {
    forall|i: int| 0 <= i < s.len() ==> (#[trigger] s[i] as u32) < 128 && !('A' <= s[i] <= 'Z')
}

proof fn lemma_low_part(s: Seq<char>, n: nat)
    requires
        is_low(s),
        n <= s.len(),
    ensures
        is_low(text::after(s, n)),
        is_low(text::head(s, n)),
        text::head(s, n) + text::after(s, n) == s,
{
    let a = text::after(s, n);
    assert forall|i: int| 0 <= i < a.len() implies (#[trigger] a[i] as u32) < 128 && !('A' <= a[i]
        <= 'Z') by {
        assert(a[i] == s[i + n]);
    }
    let h = text::head(s, n);
    assert forall|i: int| 0 <= i < h.len() implies (#[trigger] h[i] as u32) < 128 && !('A' <= h[i]
        <= 'Z') by {
        assert(h[i] == s[i]);
    }
    assert(text::head(s, n) + text::after(s, n) =~= s);
}

proof fn lemma_low_fold(s: Seq<char>, i: int)
    requires
        is_low(s),
        0 <= i < s.len(),
    ensures
        text::fold(s[i]) == s[i],
        text::in_class(Class::Label, s[i]) ==> version_laws::is_letter(s[i])
            || version_laws::is_figure(s[i]),
{
    assert((s[i] as u32) < 128);
}

proof fn lemma_folded(s: Seq<char>, word: Seq<char>)
    requires
        is_low(s),
        text::starts_folded(s, word),
    ensures
        text::head(s, word.len()) == word,
        word.len() <= s.len(),
{
    assert forall|i: int| 0 <= i < word.len() implies text::head(s, word.len())[i] == word[i] by {
        assert(text::fold(s[i]) == word[i]);
        lemma_low_fold(s, i);
    }
    assert(text::head(s, word.len()) =~= word);
}

proof fn lemma_run_figures(s: Seq<char>)
    ensures
        text::run(Class::Digit, s) <= s.len(),
        version_laws::all_figures(text::head(s, text::run(Class::Digit, s))),
{
    text::lemma_run_all(Class::Digit, s);
    let h = text::head(s, text::run(Class::Digit, s));
    assert forall|i: int| 0 <= i < h.len() implies version_laws::is_figure(#[trigger] h[i]) by {
        assert(text::in_class(Class::Digit, h[i]));
    }
}

/// The segment at the head of a text, with a word of some length.
spec fn segment_at(s: Seq<char>, word: nat) -> Written {
    let n = grammar::separator_len(s);
    let m = n + word;
    let k = m + grammar::separator_len(text::after(s, m));
    Written {
        sep: text::head(s, n),
        word: text::head(text::after(s, n), word),
        mid: text::head(text::after(s, m), grammar::separator_len(text::after(s, m))),
        digits: text::head(text::after(s, k), text::run(Class::Digit, text::after(s, k))),
    }
}

proof fn lemma_gap(s: Seq<char>)
    ensures
        version_laws::is_gap(text::head(s, grammar::separator_len(s))),
        grammar::separator_len(s) <= s.len(),
{
}

proof fn lemma_segment_at(s: Seq<char>, word: nat)
    requires
        is_low(s),
        word > 0,
        grammar::separator_len(s) + word <= s.len(),
    ensures
        ({
            let w = segment_at(s, word);
            let n = grammar::segment_len(s, word);
            &&& n <= s.len()
            &&& version_laws::written(w) == text::head(s, n)
            &&& version_laws::well_written(w, text::after(s, n))
            &&& s == version_laws::written(w) + text::after(s, n)
        }),
{
    let w = segment_at(s, word);
    let n = grammar::separator_len(s);
    let m = n + word;
    let a = text::after(s, m);
    lemma_gap(s);
    lemma_gap(a);
    let k = m + grammar::separator_len(a);
    let b = text::after(s, k);
    lemma_run_figures(b);
    let e = k + text::run(Class::Digit, b);
    assert(version_laws::written(w) =~= text::head(s, e));
    assert(s =~= text::head(s, e) + text::after(s, e));
    if w.digits.len() == 0 && w.mid.len() == 0 {
        assert(grammar::separator_len(a) == 0);
        assert(e == m);
        assert(text::after(s, e) == a);
    }
}

proof fn lemma_pre_at(s: Seq<char>) -> (w: Option<Written>)
    requires
        is_low(s),
    ensures
        grammar::pre_len(s) <= s.len(),
        s == version_laws::opt_written(w) + text::after(s, grammar::pre_len(s)),
        is_low(text::after(s, grammar::pre_len(s))),
        w matches Some(x) ==> version_laws::letter_of(x.word) is Some && version_laws::well_written(
            x,
            text::after(s, grammar::pre_len(s)),
        ),
{
    version_laws::lemma_words();
    let u = grammar::past_separator(s);
    lemma_gap(s);
    lemma_low_part(s, grammar::separator_len(s));
    match grammar::pre_word(u) {
        Some((_, n)) => {
            let word = if text::starts_folded(u, "alpha"@) {
                "alpha"@
            } else if text::starts_folded(u, "a"@) {
                "a"@
            } else if text::starts_folded(u, "beta"@) {
                "beta"@
            } else if text::starts_folded(u, "b"@) {
                "b"@
            } else if text::starts_folded(u, "preview"@) {
                "preview"@
            } else if text::starts_folded(u, "pre"@) {
                "pre"@
            } else if text::starts_folded(u, "c"@) {
                "c"@
            } else {
                "rc"@
            };
            lemma_folded(u, word);
            assert(n == word.len());
            lemma_segment_at(s, n);
            lemma_low_part(s, grammar::pre_len(s));
            Some(segment_at(s, n))
        },
        None => {
            lemma_low_part(s, 0);
            assert(Seq::<char>::empty() + text::after(s, 0) =~= s);
            None
        },
    }
}

proof fn lemma_post_at(s: Seq<char>) -> (w: Option<Written>)
    requires
        is_low(s),
    ensures
        grammar::post_len(s) <= s.len(),
        s == version_laws::opt_written(w) + text::after(s, grammar::post_len(s)),
        is_low(text::after(s, grammar::post_len(s))),
        w matches Some(x) ==> version_laws::is_post_word(x) && version_laws::well_written(
            x,
            text::after(s, grammar::post_len(s)),
        ),
{
    version_laws::lemma_words();
    let none = Seq::<char>::empty();
    let u = grammar::past_separator(s);
    lemma_gap(s);
    lemma_low_part(s, grammar::separator_len(s));
    if grammar::is_dash_post(s) {
        let a = text::after(s, 1);
        lemma_run_figures(a);
        let n = text::run(Class::Digit, a);
        assert(a[0] == s[1]);
        let w = Written { sep: seq!['-'], word: none, mid: none, digits: text::head(a, n) };
        assert(version_laws::written(w) =~= text::head(s, 1 + n));
        lemma_low_part(s, 1 + n);
        Some(w)
    } else if grammar::post_word(u) > 0 {
        let word = if text::starts_folded(u, "post"@) {
            "post"@
        } else if text::starts_folded(u, "rev"@) {
            "rev"@
        } else {
            "r"@
        };
        lemma_folded(u, word);
        lemma_segment_at(s, word.len());
        lemma_low_part(s, grammar::post_len(s));
        Some(segment_at(s, word.len()))
    } else {
        lemma_low_part(s, 0);
        assert(none + text::after(s, 0) =~= s);
        None
    }
}

proof fn lemma_dev_at(s: Seq<char>) -> (w: Option<Written>)
    requires
        is_low(s),
    ensures
        grammar::dev_len(s) <= s.len(),
        s == version_laws::opt_written(w) + text::after(s, grammar::dev_len(s)),
        is_low(text::after(s, grammar::dev_len(s))),
        w matches Some(x) ==> x.word == "dev"@ && version_laws::well_written(
            x,
            text::after(s, grammar::dev_len(s)),
        ),
{
    version_laws::lemma_words();
    let u = grammar::past_separator(s);
    lemma_gap(s);
    lemma_low_part(s, grammar::separator_len(s));
    if grammar::dev_word(u) > 0 {
        lemma_folded(u, "dev"@);
        lemma_segment_at(s, 3);
        lemma_low_part(s, grammar::dev_len(s));
        Some(segment_at(s, 3))
    } else {
        lemma_low_part(s, 0);
        assert(Seq::<char>::empty() + text::after(s, 0) =~= s);
        None
    }
}

proof fn lemma_join_split(s: Seq<char>)
    ensures
        text::join(text::split(s, grammar::dot()), seq!['.']) == s,
        text::split(s, grammar::dot()).len() > 0,
    decreases s.len(),
{
    let dot = grammar::dot();
    text::lemma_first_of_all(s, dot);
    let n = text::first_of(s, dot);
    if n < s.len() {
        let rest = s.skip(n as int + 1);
        lemma_join_split(rest);
        let parts = text::split(s, dot);
        let more = text::split(rest, dot);
        assert(parts == seq![s.take(n as int)] + more);
        assert(parts.skip(1) =~= more);
        assert(dot.contains(s[n as int]));
        let k = choose|k: int| 0 <= k < dot.len() && dot[k] == s[n as int];
        assert(s[n as int] == '.');
        assert(s.take(n as int) + seq!['.'] + rest =~= s);
    } else {
        assert(text::split(s, dot) =~= seq![s]);
    }
}

/// What stands between the segments of a label.
spec fn marks_of(s: Seq<char>) -> Seq<char>
    decreases s.len(),
{
    let n = text::first_of(s, grammar::separators());
    if n >= s.len() {
        Seq::empty()
    } else {
        seq![s[n as int]] + marks_of(s.skip(n as int + 1))
    }
}

proof fn lemma_label_marks(s: Seq<char>)
    ensures
        ({
            let segments = text::split(s, grammar::separators());
            let marks = marks_of(s);
            &&& version_laws::label_of(segments, marks) == s
            &&& segments.len() > 0
            &&& marks.len() == segments.len() - 1
            &&& forall|i: int|
                0 <= i < marks.len() ==> #[trigger] marks[i] == '.' || marks[i] == '-' || marks[i]
                    == '_'
        }),
    decreases s.len(),
{
    let seps = grammar::separators();
    text::lemma_first_of_all(s, seps);
    let n = text::first_of(s, seps);
    let segments = text::split(s, seps);
    let marks = marks_of(s);
    if n < s.len() {
        let rest = s.skip(n as int + 1);
        lemma_label_marks(rest);
        let more = text::split(rest, seps);
        let others = marks_of(rest);
        assert(segments == seq![s.take(n as int)] + more);
        assert(segments.skip(1) =~= more);
        assert(marks.skip(1) =~= others);
        assert(seps.contains(s[n as int]));
        let k = choose|k: int| 0 <= k < seps.len() && seps[k] == s[n as int];
        assert(s.take(n as int) + (seq![s[n as int]] + rest) =~= s);
        assert forall|i: int| 0 <= i < marks.len() implies #[trigger] marks[i] == '.' || marks[i]
            == '-' || marks[i] == '_' by {
            if i > 0 {
                assert(marks[i] == others[i - 1]);
            }
        }
    } else {
        assert(segments =~= seq![s]);
    }
}

proof fn lemma_label_at(s: Seq<char>)
    requires
        is_low(s),
        s.len() > 0,
        grammar::label_len(s) == s.len(),
    ensures
        version_laws::well_labelled(text::split(s, grammar::separators()), marks_of(s)),
{
    let seps = grammar::separators();
    let segments = text::split(s, seps);
    assert forall|c: char| text::in_class(Class::Label, c) implies !(#[trigger] seps.contains(
        c,
    )) by {}
    grammar::lemma_list_split(Class::Label, seps, s);
    lemma_label_marks(s);
    assert forall|i: int, j: int| 0 <= i < segments.len() && 0 <= j < segments[i].len() implies
        version_laws::is_letter(#[trigger] segments[i][j]) || version_laws::is_figure(
        segments[i][j],
    ) by {
        assert(text::all_in(Class::Label, segments[i]));
        assert(text::in_class(Class::Label, segments[i][j]));
        lemma_split_within(s, i, j);
        let k = choose|k: int| 0 <= k < s.len() && s[k] == segments[i][j];
        lemma_low_fold(s, k);
    }
}

proof fn lemma_split_within(s: Seq<char>, i: int, j: int)
    requires
        0 <= i < text::split(s, grammar::separators()).len(),
        0 <= j < text::split(s, grammar::separators())[i].len(),
    ensures
        s.contains(text::split(s, grammar::separators())[i][j]),
    decreases s.len(),
{
    let seps = grammar::separators();
    text::lemma_first_of_all(s, seps);
    let n = text::first_of(s, seps);
    let parts = text::split(s, seps);
    if n < s.len() {
        let rest = s.skip(n as int + 1);
        let more = text::split(rest, seps);
        assert(parts == seq![s.take(n as int)] + more);
        if i == 0 {
            assert(parts[0][j] == s[j]);
        } else {
            assert(parts[i] == more[i - 1]);
            lemma_split_within(rest, i - 1, j);
            let k = choose|k: int| 0 <= k < rest.len() && rest[k] == parts[i][j];
            assert(s[k + n + 1] == parts[i][j]);
        }
    } else {
        assert(parts =~= seq![s]);
        assert(parts[i][j] == s[j]);
    }
}

proof fn lemma_base_at(s: Seq<char>) -> (r: (Option<Seq<char>>, Seq<Seq<char>>))
    requires
        is_low(s),
        grammar::release_len(text::after(s, grammar::epoch_len(s))) > 0,
    ensures
        ({
            let s2 = text::after(s, grammar::epoch_len(s));
            let n = grammar::release_len(s2);
            &&& grammar::epoch_len(s) <= s.len()
            &&& n <= s2.len()
            &&& is_low(text::after(s2, n))
            &&& s == version_laws::opt_epoch(r.0) + (text::join(r.1, seq!['.']) + text::after(s2, n))
            &&& r.0 matches Some(e) ==> e.len() > 0 && version_laws::all_figures(e)
            &&& r.1.len() > 0
            &&& forall|i: int|
                0 <= i < r.1.len() ==> (#[trigger] r.1[i]).len() > 0 && version_laws::all_figures(
                    r.1[i],
                )
        }),
{
    let n = grammar::epoch_len(s);
    lemma_run_figures(s);
    lemma_low_part(s, n);
    let s2 = text::after(s, n);
    let k = grammar::release_len(s2);
    let dot = grammar::dot();
    grammar::lemma_list_head(Class::Digit, dot, s2);
    lemma_low_part(s2, k);
    let h = text::head(s2, k);
    assert forall|c: char| text::in_class(Class::Digit, c) implies !(#[trigger] dot.contains(
        c,
    )) by {}
    grammar::lemma_list_split(Class::Digit, dot, h);
    lemma_join_split(h);
    let release = text::split(h, dot);
    assert forall|i: int| 0 <= i < release.len() implies (#[trigger] release[i]).len() > 0
        && version_laws::all_figures(release[i]) by {
        let d = release[i];
        assert(text::all_in(Class::Digit, d));
        assert forall|j: int| 0 <= j < d.len() implies version_laws::is_figure(#[trigger] d[j]) by {
            assert(text::in_class(Class::Digit, d[j]));
        }
    }
    let epoch = if n > 0 {
        Some(text::head(s, (n - 1) as nat))
    } else {
        None
    };
    if n > 0 {
        let e = text::head(s, (n - 1) as nat);
        assert(e + seq!['!'] =~= text::head(s, n));
    } else {
        assert(text::head(s, 0) =~= Seq::<char>::empty());
    }
    assert(s =~= version_laws::opt_epoch(epoch) + s2);
    (epoch, release)
}

/// What follows the segments of a text.
spec fn past_segments(s3: Seq<char>) -> Seq<char> {
    let s4 = text::after(s3, grammar::pre_len(s3));
    let s5 = text::after(s4, grammar::post_len(s4));
    text::after(s5, grammar::dev_len(s5))
}

proof fn lemma_segments_at(s3: Seq<char>) -> (r: (Option<Written>, Option<Written>, Option<Written>))
    requires
        is_low(s3),
    ensures
        ({
            let s6 = past_segments(s3);
            let s5 = version_laws::opt_written(r.2) + s6;
            let s4 = version_laws::opt_written(r.1) + s5;
            &&& is_low(s6)
            &&& s3 == version_laws::opt_written(r.0) + s4
            &&& r.0 matches Some(x) ==> version_laws::letter_of(x.word) is Some
                && version_laws::well_written(x, s4)
            &&& r.1 matches Some(x) ==> version_laws::is_post_word(x) && version_laws::well_written(
                x,
                s5,
            )
            &&& r.2 matches Some(x) ==> x.word == "dev"@ && version_laws::well_written(x, s6)
        }),
{
    let pre = lemma_pre_at(s3);
    let s4 = text::after(s3, grammar::pre_len(s3));
    let post = lemma_post_at(s4);
    let s5 = text::after(s4, grammar::post_len(s4));
    let dev = lemma_dev_at(s5);
    (pre, post, dev)
}

proof fn lemma_local_at(s6: Seq<char>) -> (local: Option<(Seq<Seq<char>>, Seq<char>)>)
    requires
        is_low(s6),
        grammar::local_len(s6) == s6.len(),
    ensures
        s6 == version_laws::opt_label(local),
        local matches Some((segments, marks)) ==> version_laws::well_labelled(segments, marks),
{
    if s6.len() > 0 {
        let l = text::after(s6, 1);
        lemma_low_part(s6, 1);
        lemma_label_at(l);
        lemma_label_marks(l);
        assert(s6 =~= seq!['+'] + l);
        Some((text::split(l, grammar::separators()), marks_of(l)))
    } else {
        assert(s6 =~= Seq::<char>::empty());
        None
    }
}

/// Only what is spelled as a version is one: a text of ASCII characters without capitals and
/// without white space around it that says a version is a well-spelled version, perhaps with a
/// `v` before it.
pub proof fn law_only_spelled(t: Seq<char>) -> (s: Spelled)
    requires
        is_low(t),
        text::trim(t) == t,
        version::parse_version(t) is Some,
    ensures
        version_laws::well_spelled(s),
        t == version_laws::spelled(s) || t == seq!['v'] + version_laws::spelled(s),
{
    let n = grammar::v_len(t);
    lemma_low_part(t, n);
    let s1 = text::after(t, n);
    if n > 0 {
        lemma_low_fold(t, 0);
        assert(text::head(t, 1) =~= seq!['v']);
    } else {
        assert(s1 =~= t);
    }
    lemma_spelled_at(s1)
}

proof fn lemma_spelled_at(s1: Seq<char>) -> (s: Spelled)
    requires
        is_low(s1),
        ({
            let s2 = text::after(s1, grammar::epoch_len(s1));
            let s3 = text::after(s2, grammar::release_len(s2));
            let s6 = past_segments(s3);
            grammar::release_len(s2) > 0 && grammar::local_len(s6) == s6.len()
        }),
    ensures
        version_laws::well_spelled(s),
        s1 == version_laws::spelled(s),
{
    let (epoch, release) = lemma_base_at(s1);
    let s2 = text::after(s1, grammar::epoch_len(s1));
    let s3 = text::after(s2, grammar::release_len(s2));
    let (pre, post, dev) = lemma_segments_at(s3);
    let local = lemma_local_at(past_segments(s3));
    Spelled { epoch, release, pre, post, dev, local }
}

} // verus!
