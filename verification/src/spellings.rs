//! Laws of the ways in which one version can be spelled: in capitals, with a leading `v`, and
//! with white space around it.

use vstd::prelude::*;

use crate::canonical;
use crate::grammar::{self, VersionSpec};
use crate::text::{self, Class};
use crate::version;

verus! {

// --- Case. ---

/// Whether two texts differ at most in the case of ASCII letters.
pub open spec fn same_letters(s: Seq<char>, t: Seq<char>) -> bool {
    text::lower_text(s) == text::lower_text(t)
}

proof fn lemma_letter(s: Seq<char>, t: Seq<char>, i: int)
    requires
        same_letters(s, t),
        0 <= i < s.len(),
    ensures
        s.len() == t.len(),
        text::fold(s[i]) == text::fold(t[i]),
        text::is_space(s[i]) == text::is_space(t[i]),
        text::in_class(Class::Label, s[i]) == text::in_class(Class::Label, t[i]),
        !('a' <= text::lower(s[i]) <= 'z') ==> s[i] == t[i],
        text::is_digit(s[i]) == text::is_digit(t[i]),
        text::is_separator(s[i]) == text::is_separator(t[i]),
{
    assert(text::lower_text(s)[i] == text::lower(s[i]));
    assert(text::lower_text(t).len() == s.len());
    assert(text::lower_text(t)[i] == text::lower(t[i]));
}

proof fn lemma_same_len(s: Seq<char>, t: Seq<char>)
    requires
        same_letters(s, t),
    ensures
        s.len() == t.len(),
{
    assert(text::lower_text(s).len() == s.len());
    assert(text::lower_text(t).len() == t.len());
}

proof fn lemma_part(s: Seq<char>, t: Seq<char>, i: int, j: int)
    requires
        same_letters(s, t),
        0 <= i <= j <= s.len(),
    ensures
        same_letters(s.subrange(i, j), t.subrange(i, j)),
{
    lemma_same_len(s, t);
    let (a, b) = (s.subrange(i, j), t.subrange(i, j));
    assert forall|k: int| 0 <= k < a.len() implies text::lower_text(a)[k] == text::lower_text(
        b,
    )[k] by {
        assert(text::lower_text(s)[i + k] == text::lower(s[i + k]));
        assert(text::lower_text(t)[i + k] == text::lower(t[i + k]));
    }
    assert(text::lower_text(a) =~= text::lower_text(b));
}

proof fn lemma_after(s: Seq<char>, t: Seq<char>, n: nat)
    requires
        same_letters(s, t),
        n <= s.len(),
    ensures
        same_letters(text::after(s, n), text::after(t, n)),
        same_letters(text::head(s, n), text::head(t, n)),
{
    lemma_same_len(s, t);
    lemma_part(s, t, n as int, s.len() as int);
    lemma_part(s, t, 0, n as int);
    assert(text::after(s, n) =~= s.subrange(n as int, s.len() as int));
    assert(text::after(t, n) =~= t.subrange(n as int, t.len() as int));
    assert(text::head(s, n) =~= s.subrange(0, n as int));
    assert(text::head(t, n) =~= t.subrange(0, n as int));
}

proof fn lemma_run(k: Class, s: Seq<char>, t: Seq<char>)
    requires
        same_letters(s, t),
        k == Class::Digit || k == Class::Label || k == Class::Space,
    ensures
        text::run(k, s) == text::run(k, t),
    decreases s.len(),
{
    lemma_same_len(s, t);
    if s.len() > 0 {
        lemma_letter(s, t, 0);
        lemma_after(s, t, 1);
        lemma_run(k, s.skip(1), t.skip(1));
    }
}

/// Digits have no case.
proof fn lemma_digits(s: Seq<char>, t: Seq<char>)
    requires
        same_letters(s, t),
        text::all_in(Class::Digit, s),
    ensures
        s == t,
{
    lemma_same_len(s, t);
    assert forall|i: int| 0 <= i < s.len() implies s[i] == t[i] by {
        assert(text::in_class(Class::Digit, s[i]));
        lemma_letter(s, t, i);
    }
    assert(s =~= t);
}

/// The digits at the head of a text.
proof fn lemma_head_digits(s: Seq<char>, t: Seq<char>)
    requires
        same_letters(s, t),
    ensures
        text::run(Class::Digit, s) == text::run(Class::Digit, t),
        text::run(Class::Digit, s) <= s.len(),
        text::head(s, text::run(Class::Digit, s)) == text::head(t, text::run(Class::Digit, t)),
{
    lemma_run(Class::Digit, s, t);
    text::lemma_run_all(Class::Digit, s);
    lemma_after(s, t, text::run(Class::Digit, s));
    lemma_digits(
        text::head(s, text::run(Class::Digit, s)),
        text::head(t, text::run(Class::Digit, t)),
    );
}

proof fn lemma_starts(s: Seq<char>, t: Seq<char>, word: Seq<char>)
    requires
        same_letters(s, t),
    ensures
        text::starts_folded(s, word) == text::starts_folded(t, word),
{
    lemma_same_len(s, t);
    assert forall|i: int| 0 <= i < s.len() implies text::fold(#[trigger] s[i]) == text::fold(
        t[i],
    ) by {
        lemma_letter(s, t, i);
    }
    if text::starts_folded(s, word) {
        assert forall|i: int| 0 <= i < word.len() implies text::fold(#[trigger] t[i])
            == word[i] by {
            assert(text::fold(s[i]) == word[i]);
        }
    }
    if text::starts_folded(t, word) {
        assert forall|i: int| 0 <= i < word.len() implies text::fold(#[trigger] s[i])
            == word[i] by {
            assert(text::fold(t[i]) == word[i]);
        }
    }
}

/// Marks are no letters.
spec fn are_marks(marks: Seq<char>) -> bool {
    marks == grammar::dot() || marks == grammar::separators()
}

proof fn lemma_mark(s: Seq<char>, t: Seq<char>, marks: Seq<char>, i: int)
    requires
        same_letters(s, t),
        are_marks(marks),
        0 <= i < s.len(),
    ensures
        marks.contains(s[i]) == marks.contains(t[i]),
{
    lemma_letter(s, t, i);
    if marks.contains(s[i]) {
        let k = choose|k: int| 0 <= k < marks.len() && marks[k] == s[i];
        assert(text::is_separator(marks[k]));
    }
    if marks.contains(t[i]) {
        let k = choose|k: int| 0 <= k < marks.len() && marks[k] == t[i];
        assert(text::is_separator(marks[k]));
    }
}

proof fn lemma_rest(k: Class, marks: Seq<char>, s: Seq<char>, t: Seq<char>)
    requires
        same_letters(s, t),
        are_marks(marks),
        k == Class::Digit || k == Class::Label,
    ensures
        grammar::rest_len(k, marks, s) == grammar::rest_len(k, marks, t),
    decreases s.len(),
{
    lemma_same_len(s, t);
    if s.len() >= 2 {
        lemma_mark(s, t, marks, 0);
        lemma_letter(s, t, 1);
        if marks.contains(s[0]) && text::in_class(k, s[1]) {
            lemma_after(s, t, 1);
            let (a, b) = (text::after(s, 1), text::after(t, 1));
            lemma_run(k, a, b);
            text::lemma_run_len(k, a);
            let n = 1 + text::run(k, a);
            lemma_after(s, t, n);
            lemma_rest(k, marks, text::after(s, n), text::after(t, n));
        }
    }
}

proof fn lemma_list(k: Class, marks: Seq<char>, s: Seq<char>, t: Seq<char>)
    requires
        same_letters(s, t),
        are_marks(marks),
        k == Class::Digit || k == Class::Label,
    ensures
        grammar::list_len(k, marks, s) == grammar::list_len(k, marks, t),
        grammar::list_len(k, marks, s) <= s.len(),
{
    lemma_run(k, s, t);
    text::lemma_run_len(k, s);
    let n = text::run(k, s);
    lemma_after(s, t, n);
    lemma_rest(k, marks, text::after(s, n), text::after(t, n));
    grammar::lemma_list_head(k, marks, s);
}

proof fn lemma_first(s: Seq<char>, t: Seq<char>, marks: Seq<char>)
    requires
        same_letters(s, t),
        are_marks(marks),
    ensures
        text::first_of(s, marks) == text::first_of(t, marks),
    decreases s.len(),
{
    lemma_same_len(s, t);
    if s.len() > 0 {
        lemma_mark(s, t, marks, 0);
        lemma_after(s, t, 1);
        lemma_first(s.skip(1), t.skip(1), marks);
    }
}

proof fn lemma_split(s: Seq<char>, t: Seq<char>, marks: Seq<char>)
    requires
        same_letters(s, t),
        are_marks(marks),
    ensures
        text::split(s, marks).len() == text::split(t, marks).len(),
        forall|i: int|
            0 <= i < text::split(s, marks).len() ==> same_letters(
                #[trigger] text::split(s, marks)[i],
                text::split(t, marks)[i],
            ),
    decreases s.len(),
{
    lemma_same_len(s, t);
    lemma_first(s, t, marks);
    let n = text::first_of(s, marks);
    let (x, y) = (text::split(s, marks), text::split(t, marks));
    if n < s.len() {
        lemma_after(s, t, n);
        lemma_after(s, t, n + 1);
        let (a, b) = (s.skip(n as int + 1), t.skip(n as int + 1));
        lemma_split(a, b, marks);
        assert(x == seq![s.take(n as int)] + text::split(a, marks));
        assert(y == seq![t.take(n as int)] + text::split(b, marks));
        assert forall|i: int| 0 <= i < x.len() implies same_letters(#[trigger] x[i], y[i]) by {
            if i > 0 {
                assert(x[i] == text::split(a, marks)[i - 1]);
                assert(y[i] == text::split(b, marks)[i - 1]);
            }
        }
    }
}

proof fn lemma_release(s: Seq<char>, t: Seq<char>)
    requires
        same_letters(s, t),
    ensures
        grammar::release_len(s) == grammar::release_len(t),
        grammar::release_len(s) <= s.len(),
        grammar::release_len(s) > 0 ==> grammar::release_numbers(
            text::head(s, grammar::release_len(s)),
        ) == grammar::release_numbers(text::head(t, grammar::release_len(t))),
{
    let marks = grammar::dot();
    lemma_list(Class::Digit, marks, s, t);
    let n = grammar::release_len(s);
    if n > 0 {
        lemma_after(s, t, n);
        let (a, b) = (text::head(s, n), text::head(t, n));
        grammar::lemma_list_head(Class::Digit, marks, s);
        grammar::lemma_list_split(Class::Digit, marks, a);
        lemma_split(a, b, marks);
        let (x, y) = (text::split(a, marks), text::split(b, marks));
        assert forall|i: int| 0 <= i < x.len() implies #[trigger] x[i] == y[i] by {
            assert(same_letters(x[i], y[i]));
            lemma_digits(x[i], y[i]);
        }
        assert(x =~= y);
    }
}

proof fn lemma_separator(s: Seq<char>, t: Seq<char>)
    requires
        same_letters(s, t),
    ensures
        grammar::separator_len(s) == grammar::separator_len(t),
        grammar::separator_len(s) <= s.len(),
        same_letters(grammar::past_separator(s), grammar::past_separator(t)),
{
    lemma_same_len(s, t);
    if s.len() > 0 {
        lemma_letter(s, t, 0);
    }
    lemma_after(s, t, grammar::separator_len(s));
}

proof fn lemma_segment(s: Seq<char>, t: Seq<char>, word: nat)
    requires
        same_letters(s, t),
        grammar::separator_len(s) + word <= s.len(),
    ensures
        grammar::segment_len(s, word) == grammar::segment_len(t, word),
        grammar::segment_len(s, word) <= s.len(),
        grammar::segment_number(s, word) == grammar::segment_number(t, word),
{
    lemma_separator(s, t);
    let n = grammar::separator_len(s) + word;
    lemma_after(s, t, n);
    lemma_separator(text::after(s, n), text::after(t, n));
    let m = n + grammar::separator_len(text::after(s, n));
    lemma_after(s, t, m);
    lemma_head_digits(text::after(s, m), text::after(t, m));
}

proof fn lemma_pre(s: Seq<char>, t: Seq<char>)
    requires
        same_letters(s, t),
    ensures
        grammar::pre_len(s) == grammar::pre_len(t),
        grammar::pre_len(s) <= s.len(),
        grammar::pre_value(s) == grammar::pre_value(t),
{
    lemma_separator(s, t);
    let (a, b) = (grammar::past_separator(s), grammar::past_separator(t));
    lemma_starts(a, b, "alpha"@);
    lemma_starts(a, b, "a"@);
    lemma_starts(a, b, "beta"@);
    lemma_starts(a, b, "b"@);
    lemma_starts(a, b, "preview"@);
    lemma_starts(a, b, "pre"@);
    lemma_starts(a, b, "c"@);
    lemma_starts(a, b, "rc"@);
    reveal_strlit("alpha");
    reveal_strlit("a");
    reveal_strlit("beta");
    reveal_strlit("b");
    reveal_strlit("preview");
    reveal_strlit("pre");
    reveal_strlit("c");
    reveal_strlit("rc");
    if let Some((_, w)) = grammar::pre_word(a) {
        lemma_segment(s, t, w);
    }
}

proof fn lemma_post(s: Seq<char>, t: Seq<char>)
    requires
        same_letters(s, t),
    ensures
        grammar::post_len(s) == grammar::post_len(t),
        grammar::post_len(s) <= s.len(),
        grammar::post_value(s) == grammar::post_value(t),
{
    lemma_same_len(s, t);
    if s.len() >= 2 {
        lemma_letter(s, t, 0);
        lemma_letter(s, t, 1);
    }
    if grammar::is_dash_post(s) {
        lemma_after(s, t, 1);
        lemma_head_digits(text::after(s, 1), text::after(t, 1));
    }
    lemma_separator(s, t);
    let (a, b) = (grammar::past_separator(s), grammar::past_separator(t));
    lemma_starts(a, b, "post"@);
    lemma_starts(a, b, "rev"@);
    lemma_starts(a, b, "r"@);
    reveal_strlit("post");
    reveal_strlit("rev");
    reveal_strlit("r");
    lemma_segment(s, t, grammar::post_word(a));
}

proof fn lemma_dev(s: Seq<char>, t: Seq<char>)
    requires
        same_letters(s, t),
    ensures
        grammar::dev_len(s) == grammar::dev_len(t),
        grammar::dev_len(s) <= s.len(),
        grammar::dev_value(s) == grammar::dev_value(t),
{
    lemma_separator(s, t);
    let (a, b) = (grammar::past_separator(s), grammar::past_separator(t));
    lemma_starts(a, b, "dev"@);
    reveal_strlit("dev");
    lemma_segment(s, t, grammar::dev_word(a));
}

proof fn lemma_local_part(s: Seq<char>, t: Seq<char>)
    requires
        same_letters(s, t),
    ensures
        grammar::local_part(s) == grammar::local_part(t),
{
    lemma_same_len(s, t);
    if text::all_in(Class::Digit, s) {
        lemma_digits(s, t);
    }
    if text::all_in(Class::Digit, t) {
        lemma_digits(t, s);
    }
}

proof fn lemma_local(s: Seq<char>, t: Seq<char>)
    requires
        same_letters(s, t),
    ensures
        grammar::local_len(s) == grammar::local_len(t),
        s.len() > 0 ==> grammar::local_parts(text::after(s, 1)) == grammar::local_parts(
            text::after(t, 1),
        ),
{
    lemma_same_len(s, t);
    if s.len() > 0 {
        lemma_letter(s, t, 0);
        lemma_after(s, t, 1);
        let (a, b) = (text::after(s, 1), text::after(t, 1));
        let marks = grammar::separators();
        lemma_list(Class::Label, marks, a, b);
        lemma_split(a, b, marks);
        let (x, y) = (grammar::local_parts(a), grammar::local_parts(b));
        assert forall|i: int| 0 <= i < x.len() implies x[i] == y[i] by {
            let (p, q) = (text::split(a, marks)[i], text::split(b, marks)[i]);
            assert(same_letters(p, q));
            lemma_local_part(p, q);
        }
        assert(x =~= y);
    }
}

proof fn lemma_epoch(s: Seq<char>, t: Seq<char>)
    requires
        same_letters(s, t),
    ensures
        grammar::epoch_len(s) == grammar::epoch_len(t),
        grammar::epoch_len(s) <= s.len(),
        grammar::epoch_value(s) == grammar::epoch_value(t),
{
    lemma_same_len(s, t);
    lemma_head_digits(s, t);
    let n = text::run(Class::Digit, s);
    if n + 1 < s.len() {
        lemma_letter(s, t, n as int);
        lemma_letter(s, t, n as int + 1);
    }
}

/// The case of letters does not matter to what a text says as a version.
proof fn lemma_read_case(s: Seq<char>, t: Seq<char>)
    requires
        same_letters(s, t),
    ensures
        grammar::read_version(s) == grammar::read_version(t),
{
    lemma_same_len(s, t);
    if s.len() > 0 {
        lemma_letter(s, t, 0);
    }
    lemma_after(s, t, grammar::v_len(s));
    let (s1, t1) = (text::after(s, grammar::v_len(s)), text::after(t, grammar::v_len(t)));
    lemma_epoch(s1, t1);
    lemma_after(s1, t1, grammar::epoch_len(s1));
    let (s2, t2) = (text::after(s1, grammar::epoch_len(s1)), text::after(t1, grammar::epoch_len(t1)));
    lemma_release(s2, t2);
    lemma_after(s2, t2, grammar::release_len(s2));
    let (s3, t3) = (
        text::after(s2, grammar::release_len(s2)),
        text::after(t2, grammar::release_len(t2)),
    );
    lemma_pre(s3, t3);
    lemma_after(s3, t3, grammar::pre_len(s3));
    let (s4, t4) = (text::after(s3, grammar::pre_len(s3)), text::after(t3, grammar::pre_len(t3)));
    lemma_post(s4, t4);
    lemma_after(s4, t4, grammar::post_len(s4));
    let (s5, t5) = (text::after(s4, grammar::post_len(s4)), text::after(t4, grammar::post_len(t4)));
    lemma_dev(s5, t5);
    lemma_after(s5, t5, grammar::dev_len(s5));
    let (s6, t6) = (text::after(s5, grammar::dev_len(s5)), text::after(t5, grammar::dev_len(t5)));
    lemma_local(s6, t6);
    lemma_same_len(s6, t6);
}

proof fn lemma_trim_end_case(s: Seq<char>, t: Seq<char>)
    requires
        same_letters(s, t),
    ensures
        same_letters(text::trim_end(s), text::trim_end(t)),
    decreases s.len(),
{
    lemma_same_len(s, t);
    if s.len() > 0 {
        lemma_letter(s, t, s.len() - 1);
        lemma_part(s, t, 0, s.len() - 1);
        assert(s.drop_last() =~= s.subrange(0, s.len() - 1));
        assert(t.drop_last() =~= t.subrange(0, t.len() - 1));
        lemma_trim_end_case(s.drop_last(), t.drop_last());
    }
}

/// The case of letters does not matter: texts that differ in it say the same version, or none.
pub proof fn law_case(s: Seq<char>, t: Seq<char>)
    requires
        same_letters(s, t),
    ensures
        version::parse_version(s) == version::parse_version(t),
{
    lemma_run(Class::Space, s, t);
    text::lemma_run_len(Class::Space, s);
    let n = text::run(Class::Space, s);
    lemma_after(s, t, n);
    lemma_trim_end_case(s.skip(n as int), t.skip(n as int));
    lemma_read_case(text::trim(s), text::trim(t));
}

// --- A leading `v`. ---

/// A leading `v` does not matter before a text that begins with neither white space nor
/// another `v`.
pub proof fn law_leading_v(c: char, s: Seq<char>)
    requires
        c == 'v' || c == 'V',
        s.len() > 0 ==> !text::is_space(s[0]) && text::fold(s[0]) != 'v',
    ensures
        version::parse_version(seq![c] + s) == version::parse_version(s),
{
    let u = seq![c] + s;
    assert(text::run(Class::Space, u) == 0);
    assert(text::run(Class::Space, s) == 0);
    assert(u.skip(0) =~= u);
    assert(s.skip(0) =~= s);
    lemma_trim_end_behind(c, s);
    let t = text::trim(s);
    assert(text::trim(u) == seq![c] + t);
    text::lemma_trim_end(s);
    assert(text::after(text::trim(u), 1) =~= t);
    assert(text::after(t, 0) =~= t);
    if t.len() > 0 {
        assert(t[0] == s[0]);
    }
}

proof fn lemma_trim_end_behind(c: char, s: Seq<char>)
    requires
        !text::is_space(c),
    ensures
        text::trim_end(seq![c] + s) == seq![c] + text::trim_end(s),
    decreases s.len(),
{
    let u = seq![c] + s;
    if s.len() > 0 && text::is_space(s.last()) {
        assert(u.drop_last() =~= seq![c] + s.drop_last());
        assert(u.last() == s.last());
        lemma_trim_end_behind(c, s.drop_last());
    } else if s.len() > 0 {
        assert(u.last() == s.last());
    } else {
        assert(u.last() == c);
    }
}

// --- White space. ---

proof fn lemma_trim_end_space(s: Seq<char>, w: Seq<char>)
    requires
        text::all_in(Class::Space, w),
    ensures
        text::trim_end(s + w) == text::trim_end(s),
    decreases w.len(),
{
    if w.len() > 0 {
        assert(text::in_class(Class::Space, w[w.len() - 1]));
        let v = w.drop_last();
        assert forall|i: int| 0 <= i < v.len() implies text::in_class(
            Class::Space,
            #[trigger] v[i],
        ) by {
            assert(text::in_class(Class::Space, w[i]));
        }
        assert((s + w).drop_last() =~= s + v);
        assert((s + w).last() == w.last());
        lemma_trim_end_space(s, v);
    } else {
        assert(s + w =~= s);
    }
}

pub proof fn lemma_run_behind(w: Seq<char>, s: Seq<char>)
    requires
        text::all_in(Class::Space, w),
    ensures
        text::run(Class::Space, w + s) == w.len() + text::run(Class::Space, s),
    decreases w.len(),
{
    if w.len() > 0 {
        assert(text::in_class(Class::Space, w[0]));
        let v = w.skip(1);
        assert forall|i: int| 0 <= i < v.len() implies text::in_class(
            Class::Space,
            #[trigger] v[i],
        ) by {
            assert(text::in_class(Class::Space, w[i + 1]));
        }
        assert((w + s).skip(1) =~= v + s);
        lemma_run_behind(v, s);
    } else {
        assert(w + s =~= s);
    }
}

pub proof fn lemma_trim_before(w: Seq<char>, s: Seq<char>)
    requires
        text::all_in(Class::Space, w),
    ensures
        text::trim(w + s) == text::trim(s),
{
    lemma_run_behind(w, s);
    text::lemma_run_len(Class::Space, s);
    let n = text::run(Class::Space, s) as int;
    assert((w + s).skip(w.len() + n) =~= s.skip(n));
}

pub proof fn lemma_trim_behind(s: Seq<char>, w: Seq<char>)
    requires
        text::all_in(Class::Space, w),
    ensures
        text::trim(s + w) == text::trim(s),
{
    text::lemma_run_all(Class::Space, s);
    let n = text::run(Class::Space, s);
    let (a, b) = (text::head(s, n), s.skip(n as int));
    lemma_run_behind(a, b + w);
    assert(s + w =~= a + (b + w));
    if b.len() > 0 {
        assert(!text::in_class(Class::Space, b[0]));
        assert((b + w)[0] == b[0]);
        assert(text::run(Class::Space, b + w) == 0);
        assert((s + w).skip(n as int) =~= b + w);
        lemma_trim_end_space(b, w);
    } else {
        let none = Seq::<char>::empty();
        assert(b + w =~= w);
        lemma_run_behind(w, none);
        assert(w + none =~= w);
        assert((s + w).skip((n + w.len()) as int) =~= none);
        assert(b =~= none);
    }
}

/// White space is what Unicode counts as such: the control characters from the tab to the
/// carriage return, the space, the next line, and the spaces and separators beyond ASCII.
pub proof fn law_space(c: char)
    ensures
        text::is_space(c) <==> {
            let n = c as u32;
            ||| 9 <= n <= 13
            ||| n == 32
            ||| n == 0x85
            ||| n == 0xa0
            ||| n == 0x1680
            ||| 0x2000 <= n <= 0x200a
            ||| n == 0x2028
            ||| n == 0x2029
            ||| n == 0x202f
            ||| n == 0x205f
            ||| n == 0x3000
        },
{
}

/// White space around a text does not matter.
pub proof fn law_white_space(before: Seq<char>, s: Seq<char>, behind: Seq<char>)
    requires
        text::all_in(Class::Space, before),
        text::all_in(Class::Space, behind),
    ensures
        version::parse_version(before + s + behind) == version::parse_version(s),
{
    lemma_trim_behind(before + s, behind);
    lemma_trim_before(before, s);
}

// --- All of these. ---

/// The canonical text of a version says that version also in other case, with a leading `v`,
/// and with white space around it.
pub proof fn law_spellings(
    v: VersionSpec,
    before: Seq<char>,
    lead: Seq<char>,
    s: Seq<char>,
    behind: Seq<char>,
)
    requires
        version::is_version(v),
        version::fits(v),
        text::all_in(Class::Space, before),
        lead == Seq::<char>::empty() || lead == seq!['v'] || lead == seq!['V'],
        same_letters(s, canonical::render(v)),
        text::all_in(Class::Space, behind),
    ensures
        version::parse_version(before + (lead + s) + behind) == Some(v),
{
    let t = canonical::render(v);
    law_white_space(before, lead + s, behind);
    canonical::law_parse_render(v);
    law_case(s, t);
    if lead.len() > 0 {
        lemma_render_head(v);
        lemma_same_len(s, t);
        lemma_letter(s, t, 0);
        law_leading_v(lead[0], s);
        assert(lead =~= seq![lead[0]]);
    } else {
        assert(lead + s =~= s);
    }
}

proof fn lemma_render_head(v: VersionSpec)
    requires
        version::is_version(v),
    ensures
        canonical::render(v).len() > 0,
        text::is_digit(canonical::render(v)[0]),
{
    text::lemma_decimal(v.epoch);
    text::lemma_decimal(v.release[0]);
    let ds = canonical::decimals(v.release);
    assert(ds[0] == text::decimal(v.release[0]));
    let r = canonical::release_text(v.release);
    assert(r.len() > 0 && r[0] == ds[0][0]);
    assert(text::in_class(Class::Digit, text::decimal(v.epoch)[0]));
    assert(text::in_class(Class::Digit, ds[0][0]));
    let b = canonical::base_text(v);
    if v.epoch == 0 {
        assert(b[0] == r[0]);
    } else {
        assert(b[0] == text::decimal(v.epoch)[0]);
    }
    assert(canonical::render(v)[0] == b[0]);
}

} // verus!
