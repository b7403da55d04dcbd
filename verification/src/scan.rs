//! Executable readers for the parts of [`crate::grammar`].

use vstd::prelude::*;

use crate::chars;
use crate::grammar::{self, PreLetter};
use crate::text::{self, Class};

verus! {

/// A leading `v`.
pub fn v_len(s: &[char]) -> (r: usize)
    ensures
        r == grammar::v_len(s@),
        r <= s@.len(),
{
    if s.len() > 0 && chars::fold(s[0]) == 'v' {
        1
    } else {
        0
    }
}

/// An epoch: digits and `!`, before another digit.
pub fn epoch_len(s: &[char]) -> (r: usize)
    ensures
        r == grammar::epoch_len(s@),
        r <= s@.len(),
{
    let n: usize = chars::run(&Class::Digit, s);
    if n > 0 && n < s.len() && s.len() - n > 1 && s[n] == '!' && chars::is_digit(s[n + 1]) {
        n + 1
    } else {
        0
    }
}

/// The rest of a list of runs.
pub fn rest_len(k: &Class, marks: &[char], s: &[char]) -> (r: usize)
    ensures
        r == grammar::rest_len(*k, marks@, s@),
        r <= s@.len(),
{
    let mut n: usize = 0;
    assert(text::after(s@, 0) =~= s@);
    while s.len() - n >= 2 && chars::is_one_of(s[n], marks) && chars::in_class(k, s[n + 1])
        invariant
            n <= s@.len(),
            grammar::rest_len(*k, marks@, s@) == n + grammar::rest_len(
                *k,
                marks@,
                text::after(s@, n as nat),
            ),
        decreases s@.len() - n,
    {
        let ghost here = text::after(s@, n as nat);
        let rest = chars::skip(s, n + 1);
        assert(rest@ =~= text::after(here, 1));
        let m: usize = chars::run(k, rest);
        assert(text::after(here, (1 + m) as nat) =~= text::after(s@, (n + 1 + m) as nat));
        n = n + 1 + m;
    }
    n
}

/// A list of runs.
pub fn list_len(k: &Class, marks: &[char], s: &[char]) -> (r: usize)
    ensures
        r == grammar::list_len(*k, marks@, s@),
        r <= s@.len(),
{
    let n: usize = chars::run(k, s);
    if n == 0 {
        0
    } else {
        let rest: usize = rest_len(k, marks, chars::skip(s, n));
        assert(s.len() == s@.len());
        n + rest
    }
}

/// A release: digits, and any number of a dot and digits.
pub fn release_len(s: &[char]) -> (r: usize)
    ensures
        r == grammar::release_len(s@),
        r <= s@.len(),
{
    let marks = ['.'];
    assert(marks@ =~= grammar::dot());
    list_len(&Class::Digit, &marks, s)
}

/// An optional separator.
pub fn separator_len(s: &[char]) -> (r: usize)
    ensures
        r == grammar::separator_len(s@),
        r <= s@.len(),
{
    if s.len() > 0 && chars::is_separator(s[0]) {
        1
    } else {
        0
    }
}

/// A spelling of a pre-release letter: the letter and the length of the spelling.
pub fn pre_word(s: &[char]) -> (r: Option<(PreLetter, usize)>)
    ensures
        match r {
            Some((l, n)) => grammar::pre_word(s@) == Some((l, n as nat)) && 0 < n <= s@.len(),
            None => grammar::pre_word(s@) is None,
        },
{
    proof {
        reveal_strlit("alpha");
        reveal_strlit("a");
        reveal_strlit("beta");
        reveal_strlit("b");
        reveal_strlit("preview");
        reveal_strlit("pre");
        reveal_strlit("c");
        reveal_strlit("rc");
    }
    if chars::starts_folded(s, "alpha") {
        Some((PreLetter::A, 5))
    } else if chars::starts_folded(s, "a") {
        Some((PreLetter::A, 1))
    } else if chars::starts_folded(s, "beta") {
        Some((PreLetter::B, 4))
    } else if chars::starts_folded(s, "b") {
        Some((PreLetter::B, 1))
    } else if chars::starts_folded(s, "preview") {
        Some((PreLetter::Rc, 7))
    } else if chars::starts_folded(s, "pre") {
        Some((PreLetter::Rc, 3))
    } else if chars::starts_folded(s, "c") {
        Some((PreLetter::Rc, 1))
    } else if chars::starts_folded(s, "rc") {
        Some((PreLetter::Rc, 2))
    } else {
        None
    }
}

/// A spelling of the post-release word; zero where there is none.
pub fn post_word(s: &[char]) -> (r: usize)
    ensures
        r == grammar::post_word(s@),
        r <= s@.len(),
{
    proof {
        reveal_strlit("post");
        reveal_strlit("rev");
        reveal_strlit("r");
    }
    if chars::starts_folded(s, "post") {
        4
    } else if chars::starts_folded(s, "rev") {
        3
    } else if chars::starts_folded(s, "r") {
        1
    } else {
        0
    }
}

/// The word of a development release; zero where there is none.
pub fn dev_word(s: &[char]) -> (r: usize)
    ensures
        r == grammar::dev_word(s@),
        r <= s@.len(),
{
    proof {
        reveal_strlit("dev");
    }
    if chars::starts_folded(s, "dev") {
        3
    } else {
        0
    }
}

/// What a reader took from the head of a text: how many characters, and which of them are the
/// digits of a number.
pub struct Segment {
    pub len: usize,
    pub digits: usize,
}

/// A segment made of an optional separator, a word, an optional separator and optional digits.
pub fn segment(s: &[char], word: usize) -> (r: Segment)
    requires
        0 < word,
        grammar::separator_len(s@) + word <= s@.len(),
    ensures
        r.len == grammar::segment_len(s@, word as nat),
        r.digits <= r.len <= s@.len(),
        text::number(s@.subrange(r.len - r.digits, r.len as int)) == grammar::segment_number(
            s@,
            word as nat,
        ),
        text::all_in(Class::Digit, s@.subrange(r.len - r.digits, r.len as int)),
{
    assert(s.len() == s@.len());
    let n: usize = separator_len(s) + word;
    let rest = chars::skip(s, n);
    let m: usize = n + separator_len(rest);
    let tail = chars::skip(s, m);
    let d: usize = chars::run(&Class::Digit, tail);
    proof {
        text::lemma_run_all(Class::Digit, tail@);
        assert(text::head(tail@, d as nat) =~= s@.subrange(m as int, m + d));
    }
    Segment { len: m + d, digits: d }
}

/// A pre-release segment.
pub fn pre_len(s: &[char]) -> (r: usize)
    ensures
        r == grammar::pre_len(s@),
        r <= s@.len(),
{
    match pre_word(chars::skip(s, separator_len(s))) {
        Some((_, word)) => segment(s, word).len,
        None => 0,
    }
}

/// A post-release segment.
pub fn post_len(s: &[char]) -> (r: usize)
    ensures
        r == grammar::post_len(s@),
        r <= s@.len(),
{
    if s.len() >= 2 && s[0] == '-' && chars::is_digit(s[1]) {
        let n: usize = chars::run(&Class::Digit, chars::skip(s, 1));
        return 1 + n;
    }
    let word: usize = post_word(chars::skip(s, separator_len(s)));
    if word == 0 {
        0
    } else {
        segment(s, word).len
    }
}

/// A development-release segment.
pub fn dev_len(s: &[char]) -> (r: usize)
    ensures
        r == grammar::dev_len(s@),
        r <= s@.len(),
{
    let word: usize = dev_word(chars::skip(s, separator_len(s)));
    if word == 0 {
        0
    } else {
        segment(s, word).len
    }
}

/// A local label.
pub fn label_len(s: &[char]) -> (r: usize)
    ensures
        r == grammar::label_len(s@),
        r <= s@.len(),
{
    let marks = ['.', '_', '-'];
    assert(marks@ =~= grammar::separators());
    list_len(&Class::Label, &marks, s)
}

/// A local segment: `+` and a local label.
pub fn local_len(s: &[char]) -> (r: usize)
    ensures
        r == grammar::local_len(s@),
        r <= s@.len(),
{
    if s.len() > 0 && s[0] == '+' {
        let n: usize = label_len(chars::skip(s, 1));
        if n > 0 {
            return 1 + n;
        }
    }
    0
}

} // verus!
