//! Where a version specifier ends: nothing of it is read beyond a comma, a semicolon, a closing
//! parenthesis or a blank.

use vstd::prelude::*;

use crate::clause::{self, Operator};
use crate::grammar;
use crate::text::{self, Class};

verus! {

/// Whether a text is empty or begins with a comma, a semicolon, a closing parenthesis or a blank.
pub open spec fn stops(rest: Seq<char>) -> bool {
    rest.len() > 0 ==> rest[0] == ',' || rest[0] == ';' || rest[0] == ')' || rest[0] == ' ' || rest[0]
        == '\t'
}

proof fn lemma_after(t: Seq<char>, rest: Seq<char>, n: nat)
    requires
        n <= t.len(),
    ensures
        text::after(t + rest, n) == text::after(t, n) + rest,
{
    assert(text::after(t + rest, n) =~= text::after(t, n) + rest);
}

proof fn lemma_run(k: Class, t: Seq<char>, rest: Seq<char>)
    requires
        rest.len() > 0 ==> !text::in_class(k, rest[0]),
    ensures
        text::run(k, t + rest) == text::run(k, t),
        text::run(k, t) <= t.len(),
    decreases t.len(),
{
    if t.len() > 0 {
        assert((t + rest).skip(1) =~= t.skip(1) + rest);
        lemma_run(k, t.skip(1), rest);
    } else {
        assert(t + rest =~= rest);
    }
}

proof fn lemma_folded(t: Seq<char>, rest: Seq<char>, word: Seq<char>)
    requires
        stops(rest),
        forall|i: int| 0 <= i < word.len() ==> 'a' <= #[trigger] word[i] <= 'z',
    ensures
        text::starts_folded(t + rest, word) == text::starts_folded(t, word),
{
    let s = t + rest;
    if text::starts_folded(s, word) {
        if word.len() > t.len() {
            assert(text::fold(s[t.len() as int]) == word[t.len() as int]);
            assert(s[t.len() as int] == rest[0]);
        } else {
            assert forall|i: int| 0 <= i < word.len() implies text::fold(#[trigger] t[i])
                == word[i] by {
                assert(text::fold(s[i]) == word[i]);
            }
        }
    }
    if text::starts_folded(t, word) {
        assert forall|i: int| 0 <= i < word.len() implies text::fold(#[trigger] s[i]) == word[i] by {
            assert(s[i] == t[i]);
            assert(text::fold(t[i]) == word[i]);
        }
    }
}

proof fn lemma_separator(t: Seq<char>, rest: Seq<char>)
    requires
        stops(rest),
    ensures
        grammar::separator_len(t + rest) == grammar::separator_len(t),
        grammar::separator_len(t) <= t.len(),
        grammar::past_separator(t + rest) == grammar::past_separator(t) + rest,
{
    if t.len() == 0 {
        assert(t + rest =~= rest);
    }
    lemma_after(t, rest, grammar::separator_len(t));
}

proof fn lemma_segment(t: Seq<char>, rest: Seq<char>, word: nat)
    requires
        stops(rest),
        grammar::separator_len(t) + word <= t.len(),
    ensures
        grammar::segment_len(t + rest, word) == grammar::segment_len(t, word),
        grammar::segment_len(t, word) <= t.len(),
{
    lemma_separator(t, rest);
    let n = grammar::separator_len(t) + word;
    lemma_after(t, rest, n);
    lemma_separator(text::after(t, n), rest);
    let m = n + grammar::separator_len(text::after(t, n));
    lemma_after(t, rest, m);
    lemma_run(Class::Digit, text::after(t, m), rest);
}

proof fn lemma_pre(t: Seq<char>, rest: Seq<char>)
    requires
        stops(rest),
    ensures
        grammar::pre_len(t + rest) == grammar::pre_len(t),
        grammar::pre_len(t) <= t.len(),
{
    reveal_strlit("alpha");
    reveal_strlit("a");
    reveal_strlit("beta");
    reveal_strlit("b");
    reveal_strlit("preview");
    reveal_strlit("pre");
    reveal_strlit("c");
    reveal_strlit("rc");
    lemma_separator(t, rest);
    let u = grammar::past_separator(t);
    lemma_folded(u, rest, "alpha"@);
    lemma_folded(u, rest, "a"@);
    lemma_folded(u, rest, "beta"@);
    lemma_folded(u, rest, "b"@);
    lemma_folded(u, rest, "preview"@);
    lemma_folded(u, rest, "pre"@);
    lemma_folded(u, rest, "c"@);
    lemma_folded(u, rest, "rc"@);
    if let Some((_, w)) = grammar::pre_word(u) {
        lemma_segment(t, rest, w);
    }
}

proof fn lemma_post(t: Seq<char>, rest: Seq<char>)
    requires
        stops(rest),
    ensures
        grammar::post_len(t + rest) == grammar::post_len(t),
        grammar::post_len(t) <= t.len(),
{
    reveal_strlit("post");
    reveal_strlit("rev");
    reveal_strlit("r");
    let s = t + rest;
    lemma_separator(t, rest);
    let u = grammar::past_separator(t);
    lemma_folded(u, rest, "post"@);
    lemma_folded(u, rest, "rev"@);
    lemma_folded(u, rest, "r"@);
    assert(grammar::is_dash_post(s) == grammar::is_dash_post(t)) by {
        if t.len() == 0 {
            assert(s =~= rest);
        } else if t.len() == 1 && rest.len() > 0 {
            assert(s[1] == rest[0]);
        }
    }
    if grammar::is_dash_post(t) {
        lemma_after(t, rest, 1);
        lemma_run(Class::Digit, text::after(t, 1), rest);
    } else if grammar::post_word(u) > 0 {
        lemma_segment(t, rest, grammar::post_word(u));
    }
}

proof fn lemma_dev(t: Seq<char>, rest: Seq<char>)
    requires
        stops(rest),
    ensures
        grammar::dev_len(t + rest) == grammar::dev_len(t),
        grammar::dev_len(t) <= t.len(),
{
    reveal_strlit("dev");
    lemma_separator(t, rest);
    let u = grammar::past_separator(t);
    lemma_folded(u, rest, "dev"@);
    if grammar::dev_word(u) > 0 {
        lemma_segment(t, rest, grammar::dev_word(u));
    }
}

proof fn lemma_rest_len(k: Class, marks: Seq<char>, t: Seq<char>, rest: Seq<char>)
    requires
        stops(rest),
        k == Class::Digit || k == Class::Label,
        marks == grammar::dot() || marks == grammar::separators(),
    ensures
        grammar::rest_len(k, marks, t + rest) == grammar::rest_len(k, marks, t),
        grammar::rest_len(k, marks, t) <= t.len(),
    decreases t.len(),
{
    let s = t + rest;
    if t.len() >= 2 && marks.contains(t[0]) && text::in_class(k, t[1]) {
        lemma_after(t, rest, 1);
        lemma_run(k, text::after(t, 1), rest);
        let n = 1 + text::run(k, text::after(t, 1));
        lemma_after(t, rest, n);
        lemma_rest_len(k, marks, text::after(t, n), rest);
        assert(s[0] == t[0] && s[1] == t[1]);
    } else {
        if t.len() == 0 {
            assert(s =~= rest);
            if s.len() > 0 {
                assert(!marks.contains(s[0]));
            }
        } else if t.len() == 1 {
            if rest.len() > 0 {
                assert(s[1] == rest[0]);
            }
        } else {
            assert(s[0] == t[0] && s[1] == t[1]);
        }
    }
}

proof fn lemma_list_len(k: Class, marks: Seq<char>, t: Seq<char>, rest: Seq<char>)
    requires
        stops(rest),
        k == Class::Digit || k == Class::Label,
        marks == grammar::dot() || marks == grammar::separators(),
    ensures
        grammar::list_len(k, marks, t + rest) == grammar::list_len(k, marks, t),
        grammar::list_len(k, marks, t) <= t.len(),
{
    lemma_run(k, t, rest);
    let n = text::run(k, t);
    lemma_after(t, rest, n);
    lemma_rest_len(k, marks, text::after(t, n), rest);
}

proof fn lemma_local(t: Seq<char>, rest: Seq<char>)
    requires
        stops(rest),
    ensures
        grammar::local_len(t + rest) == grammar::local_len(t),
        grammar::local_len(t) <= t.len(),
{
    if t.len() == 0 {
        assert(t + rest =~= rest);
    } else {
        lemma_after(t, rest, 1);
        lemma_list_len(Class::Label, grammar::separators(), text::after(t, 1), rest);
    }
}

proof fn lemma_epoch(t: Seq<char>, rest: Seq<char>)
    requires
        stops(rest),
    ensures
        grammar::epoch_len(t + rest) == grammar::epoch_len(t),
        grammar::epoch_len(t) <= t.len(),
{
    let s = t + rest;
    lemma_run(Class::Digit, t, rest);
    let n = text::run(Class::Digit, t);
    if n + 1 < s.len() {
        if n + 1 < t.len() {
            assert(s[n as int] == t[n as int] && s[n as int + 1] == t[n as int + 1]);
        } else if n + 1 == t.len() {
            assert(s[n as int + 1] == rest[0]);
        } else {
            assert(s[n as int] == rest[0]);
        }
    }
}

proof fn lemma_past(t: Seq<char>, rest: Seq<char>)
    requires
        stops(rest),
    ensures
        clause::past_epoch(t + rest) == clause::past_epoch(t) + rest,
        clause::past_release(t + rest) == clause::past_release(t) + rest,
        clause::past_stages(t + rest) == clause::past_stages(t) + rest,
        grammar::release_len(clause::past_epoch(t + rest)) == grammar::release_len(
            clause::past_epoch(t),
        ),
{
    let n1 = grammar::v_len(t);
    assert(grammar::v_len(t + rest) == n1) by {
        if t.len() == 0 {
            assert(t + rest =~= rest);
        }
    }
    let t1 = text::after(t, n1);
    lemma_after(t, rest, n1);
    lemma_epoch(t1, rest);
    let n2 = grammar::epoch_len(t1);
    let t2 = text::after(t1, n2);
    lemma_after(t1, rest, n2);
    lemma_list_len(Class::Digit, grammar::dot(), t2, rest);
    let n3 = grammar::release_len(t2);
    let t3 = text::after(t2, n3);
    lemma_after(t2, rest, n3);
    lemma_pre(t3, rest);
    let n4 = grammar::pre_len(t3);
    let t4 = text::after(t3, n4);
    lemma_after(t3, rest, n4);
    lemma_post(t4, rest);
    let n5 = grammar::post_len(t4);
    let t5 = text::after(t4, n5);
    lemma_after(t4, rest, n5);
    lemma_dev(t5, rest);
    lemma_after(t5, rest, grammar::dev_len(t5));
}

/// What is read as the version of a specifier ends there, except after `===`.
pub proof fn lemma_version(op: Operator, t: Seq<char>, rest: Seq<char>)
    requires
        stops(rest),
        op != Operator::Arbitrary,
    ensures
        clause::version_len(op, t + rest) == clause::version_len(op, t),
{
    reveal_strlit(".*");
    lemma_past(t, rest);
    let u = clause::past_epoch(t);
    lemma_run(Class::Digit, u, rest);
    let r = clause::past_release(t);
    let star = clause::star();
    assert(text::starts_with(r + rest, star) == text::starts_with(r, star)) by {
        let s = r + rest;
        if r.len() >= 2 {
            assert(s.take(2) =~= r.take(2));
        } else if text::starts_with(s, star) {
            assert(s.take(2)[0] == s[0] && s.take(2)[1] == s[1]);
            if r.len() == 1 {
                assert(s[1] == rest[0]);
            } else {
                assert(s[0] == rest[0]);
            }
        }
    }
    if text::starts_with(r, star) {
        assert((r + rest).skip(2) =~= r.skip(2) + rest);
    }
    let s6 = clause::past_stages(t);
    lemma_local(s6, rest);
    lemma_after(s6, rest, grammar::local_len(s6));
}

} // verus!
