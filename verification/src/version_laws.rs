//! Laws of what versions say and how they are written.

use vstd::prelude::*;

use crate::canonical;
use crate::clause;
use crate::grammar::{self, LocalPart, PreLetter, VersionSpec};
use crate::text::{self, Class};
use crate::version;

verus! {

/// A lower-case letter of ASCII.
pub open spec fn is_letter(c: char) -> bool {
    'a' <= c <= 'z'
}

/// A decimal digit.
pub open spec fn is_figure(c: char) -> bool {
    '0' <= c <= '9'
}

/// Whether a segment of a local label is a number of at most 64 bits, or lower-case letters and
/// digits with at least one letter.
pub open spec fn sound_part(p: LocalPart) -> bool {
    match p {
        LocalPart::Number(n) => n <= u64::MAX,
        LocalPart::Text(t) => {
            &&& forall|i: int| 0 <= i < t.len() ==> is_letter(#[trigger] t[i]) || is_figure(t[i])
            &&& exists|i: int| 0 <= i < t.len() && is_letter(#[trigger] t[i])
        },
    }
}

/// Whether a version has a release, numbers of at most 64 bits and, if it has a local label,
/// one of sound segments.
pub open spec fn sound(v: VersionSpec) -> bool {
    &&& v.epoch <= u64::MAX
    &&& v.release.len() > 0
    &&& forall|i: int| 0 <= i < v.release.len() ==> #[trigger] v.release[i] <= u64::MAX
    &&& v.pre matches Some((_, n)) ==> n <= u64::MAX
    &&& v.post matches Some(n) ==> n <= u64::MAX
    &&& v.dev matches Some(n) ==> n <= u64::MAX
    &&& v.local matches Some(l) ==> l.len() > 0 && forall|i: int|
        0 <= i < l.len() ==> sound_part(#[trigger] l[i])
}

/// A version with such parts is one that can be read and written.
pub proof fn lemma_sound(v: VersionSpec)
    requires
        sound(v),
    ensures
        version::is_version(v),
        version::fits(v),
{
    if let Some(l) = v.local {
        assert forall|i: int| 0 <= i < l.len() implies version::is_local_part(#[trigger] l[i])
            && version::small_part(l[i]) by {
            assert(sound_part(l[i]));
            if let LocalPart::Text(t) = l[i] {
                assert forall|k: int| 0 <= k < t.len() implies text::in_class(
                    Class::Label,
                    #[trigger] t[k],
                ) && text::lower(t[k]) == t[k] by {
                    assert(is_letter(t[k]) || is_figure(t[k]));
                }
                assert(text::lower_text(t) =~= t);
                let k = choose|k: int| 0 <= k < t.len() && is_letter(#[trigger] t[k]);
                assert(!text::in_class(Class::Digit, t[k]));
            }
        }
    }
}

/// The canonical text of a version with sound parts says that version.
pub proof fn law_reads_back(v: VersionSpec)
    requires
        sound(v),
    ensures
        version::parse_version(canonical::render(v)) == Some(v),
{
    lemma_sound(v);
    canonical::law_parse_render(v);
}

// --- Reading: the spellings of a version. ---

/// A segment of a version as it is written: an optional separator, a word, an optional
/// separator and digits.
pub struct Written {
    pub sep: Seq<char>,
    pub word: Seq<char>,
    pub mid: Seq<char>,
    pub digits: Seq<char>,
}

/// The text of such a segment.
pub open spec fn written(w: Written) -> Seq<char> {
    w.sep + w.word + w.mid + w.digits
}

/// The text of a segment, if there is one.
pub open spec fn opt_written(w: Option<Written>) -> Seq<char> {
    match w {
        Some(x) => written(x),
        None => Seq::empty(),
    }
}

/// Nothing, or a dot, a dash or an underscore.
pub open spec fn is_gap(s: Seq<char>) -> bool {
    s.len() == 0 || (s.len() == 1 && (s[0] == '.' || s[0] == '-' || s[0] == '_'))
}

/// Whether all of a text is digits.
pub open spec fn all_figures(s: Seq<char>) -> bool {
    forall|i: int| 0 <= i < s.len() ==> is_figure(#[trigger] s[i])
}

/// Whether a segment is well written before what follows it: its separators are, and where it
/// has no digits and no separator behind its word, no separator follows, which would be its own.
pub open spec fn well_written(w: Written, rest: Seq<char>) -> bool {
    &&& is_gap(w.sep)
    &&& is_gap(w.mid)
    &&& all_figures(w.digits)
    &&& w.digits.len() > 0 || w.mid.len() > 0 || rest.len() == 0 || !(rest[0] == '.' || rest[0]
        == '-' || rest[0] == '_')
}

/// The letter that a word for pre-releases stands for.
pub open spec fn letter_of(word: Seq<char>) -> Option<PreLetter> {
    if word == "a"@ || word == "alpha"@ {
        Some(PreLetter::A)
    } else if word == "b"@ || word == "beta"@ {
        Some(PreLetter::B)
    } else if word == "rc"@ || word == "c"@ || word == "pre"@ || word == "preview"@ {
        Some(PreLetter::Rc)
    } else {
        None
    }
}

/// The words for post-releases. A dash and digits need no word.
pub open spec fn is_post_word(w: Written) -> bool {
    ||| w.word == "post"@
    ||| w.word == "rev"@
    ||| w.word == "r"@
    ||| w.word == Seq::<char>::empty() && w.sep == seq!['-'] && w.mid == Seq::<char>::empty()
        && w.digits.len() > 0
}

/// Whether a text does not go on with a digit.
spec fn breaks(s: Seq<char>) -> bool {
    s.len() > 0 ==> !is_figure(s[0])
}

proof fn lemma_all_figures(s: Seq<char>)
    requires
        all_figures(s),
    ensures
        text::all_in(Class::Digit, s),
{
    assert forall|i: int| 0 <= i < s.len() implies text::in_class(Class::Digit, #[trigger] s[i]) by {
        assert(is_figure(s[i]));
    }
}

proof fn lemma_segment(w: Written, rest: Seq<char>)
    requires
        well_written(w, rest),
        w.word.len() > 0,
        !text::is_separator(w.word[0]),
        breaks(rest),
    ensures
        ({
            let s = written(w) + rest;
            &&& grammar::past_separator(s) == w.word + (w.mid + w.digits + rest)
            &&& grammar::segment_len(s, w.word.len()) == written(w).len()
            &&& grammar::segment_number(s, w.word.len()) == text::number(w.digits)
            &&& text::after(s, written(w).len()) == rest
        }),
{
    let s = written(w) + rest;
    let t = w.word + (w.mid + w.digits + rest);
    assert(s =~= w.sep + t);
    if w.sep.len() == 0 {
        assert(s =~= t);
        assert(s[0] == w.word[0]);
    } else {
        assert(s[0] == w.sep[0]);
    }
    assert(grammar::separator_len(s) == w.sep.len());
    assert(text::after(s, w.sep.len()) =~= t);
    let n = w.sep.len() + w.word.len();
    let u = w.mid + w.digits + rest;
    assert(text::after(s, n) =~= u);
    if w.mid.len() == 0 {
        if w.digits.len() > 0 {
            assert(is_figure(w.digits[0]));
            assert(u[0] == w.digits[0]);
        } else {
            assert(u =~= rest);
        }
    } else {
        assert(u[0] == w.mid[0]);
    }
    assert(grammar::separator_len(u) == w.mid.len());
    let m = n + w.mid.len();
    assert(text::after(s, m) =~= w.digits + rest);
    lemma_all_figures(w.digits);
    text::lemma_run_concat(Class::Digit, w.digits, rest);
    assert(text::head(w.digits + rest, w.digits.len()) =~= w.digits);
    assert(text::after(s, written(w).len()) =~= rest);
}

/// The characters of the words.
pub proof fn lemma_words()
    ensures
        "a"@ == seq!['a'],
        "alpha"@ == seq!['a', 'l', 'p', 'h', 'a'],
        "b"@ == seq!['b'],
        "beta"@ == seq!['b', 'e', 't', 'a'],
        "c"@ == seq!['c'],
        "rc"@ == seq!['r', 'c'],
        "pre"@ == seq!['p', 'r', 'e'],
        "preview"@ == seq!['p', 'r', 'e', 'v', 'i', 'e', 'w'],
        "post"@ == seq!['p', 'o', 's', 't'],
        "rev"@ == seq!['r', 'e', 'v'],
        "r"@ == seq!['r'],
        "dev"@ == seq!['d', 'e', 'v'],
{
    reveal_strlit("a");
    reveal_strlit("alpha");
    reveal_strlit("b");
    reveal_strlit("beta");
    reveal_strlit("c");
    reveal_strlit("rc");
    reveal_strlit("pre");
    reveal_strlit("preview");
    reveal_strlit("post");
    reveal_strlit("rev");
    reveal_strlit("r");
    reveal_strlit("dev");
    assert("a"@ =~= seq!['a']);
    assert("alpha"@ =~= seq!['a', 'l', 'p', 'h', 'a']);
    assert("b"@ =~= seq!['b']);
    assert("beta"@ =~= seq!['b', 'e', 't', 'a']);
    assert("c"@ =~= seq!['c']);
    assert("rc"@ =~= seq!['r', 'c']);
    assert("pre"@ =~= seq!['p', 'r', 'e']);
    assert("preview"@ =~= seq!['p', 'r', 'e', 'v', 'i', 'e', 'w']);
    assert("post"@ =~= seq!['p', 'o', 's', 't']);
    assert("rev"@ =~= seq!['r', 'e', 'v']);
    assert("r"@ =~= seq!['r']);
    assert("dev"@ =~= seq!['d', 'e', 'v']);
}

/// Whether a text begins with what can follow a word: a digit, a separator, `+`, or the letter
/// of another word.
spec fn no_letter(s: Seq<char>) -> bool {
    s.len() > 0 ==> is_figure(s[0]) || text::is_separator(s[0]) || s[0] == '+' || s[0] == 'p'
        || s[0] == 'r' || s[0] == 'd'
}

proof fn lemma_starts_self(word: Seq<char>, tail: Seq<char>)
    requires
        forall|i: int| 0 <= i < word.len() ==> is_letter(#[trigger] word[i]),
    ensures
        text::starts_folded(word + tail, word),
{
    let s = word + tail;
    assert forall|i: int| 0 <= i < word.len() implies text::fold(#[trigger] s[i]) == word[i] by {
        assert(s[i] == word[i]);
        assert(is_letter(word[i]));
    }
}

/// A text whose character differs from that of a word does not begin with it.
proof fn lemma_starts_not(s: Seq<char>, word: Seq<char>, i: int)
    requires
        0 <= i < word.len(),
        i < s.len() ==> text::fold(s[i]) != word[i],
    ensures
        !text::starts_folded(s, word),
{
}

#[verifier::rlimit(30)]
proof fn lemma_pre_word(word: Seq<char>, tail: Seq<char>)
    requires
        letter_of(word) is Some,
        no_letter(tail),
    ensures
        grammar::pre_word(word + tail) == Some((letter_of(word).unwrap(), word.len())),
        !text::is_separator(word[0]),
        word.len() > 0,
{
    lemma_words();
    let s = word + tail;
    lemma_starts_self(word, tail);
    if word == "a"@ {
        lemma_starts_not(s, "alpha"@, 1);
    } else if word == "b"@ {
        lemma_starts_not(s, "alpha"@, 0);
        lemma_starts_not(s, "a"@, 0);
        lemma_starts_not(s, "beta"@, 1);
    } else if word == "beta"@ {
        lemma_starts_not(s, "alpha"@, 0);
        lemma_starts_not(s, "a"@, 0);
    } else if word != "alpha"@ {
        lemma_starts_not(s, "alpha"@, 0);
        lemma_starts_not(s, "a"@, 0);
        lemma_starts_not(s, "beta"@, 0);
        lemma_starts_not(s, "b"@, 0);
        if word == "pre"@ {
            lemma_starts_not(s, "preview"@, 3);
        } else if word != "preview"@ {
            lemma_starts_not(s, "preview"@, 0);
            lemma_starts_not(s, "pre"@, 0);
            if word == "rc"@ {
                lemma_starts_not(s, "c"@, 0);
            }
        }
    }
}

/// What follows where there is no pre-release: nothing, or a character that no word for one
/// begins with, or a word for post-releases.
spec fn no_pre(u: Seq<char>) -> bool {
    ||| u.len() == 0
    ||| u[0] == 'd'
    ||| u[0] == '+'
    ||| is_figure(u[0])
    ||| (u[0] == 'p' && u.len() > 1 && u[1] == 'o')
    ||| (u[0] == 'r' && no_letter(u.skip(1)))
    ||| (u[0] == 'r' && u.len() > 1 && u[1] == 'e')
}

proof fn lemma_no_pre(u: Seq<char>)
    requires
        no_pre(u),
    ensures
        grammar::pre_word(u) is None,
{
    lemma_words();
    if u.len() > 1 {
        assert(u.skip(1)[0] == u[1]);
    }
    lemma_starts_not(u, "alpha"@, 0);
    lemma_starts_not(u, "a"@, 0);
    lemma_starts_not(u, "beta"@, 0);
    lemma_starts_not(u, "b"@, 0);
    lemma_starts_not(u, "c"@, 0);
    if u.len() > 0 && u[0] == 'p' {
        lemma_starts_not(u, "preview"@, 1);
        lemma_starts_not(u, "pre"@, 1);
        lemma_starts_not(u, "rc"@, 0);
    } else {
        lemma_starts_not(u, "preview"@, 0);
        lemma_starts_not(u, "pre"@, 0);
        if u.len() > 0 && u[0] == 'r' {
            lemma_starts_not(u, "rc"@, 1);
        } else {
            lemma_starts_not(u, "rc"@, 0);
        }
    }
}

/// A pre-release at the head of a text.
proof fn lemma_pre(w: Option<Written>, rest: Seq<char>)
    requires
        breaks(rest),
        no_letter(rest),
        match w {
            Some(x) => well_written(x, rest) && letter_of(x.word) is Some,
            None => no_pre(grammar::past_separator(rest)),
        },
    ensures
        ({
            let s = opt_written(w) + rest;
            &&& grammar::pre_len(s) == opt_written(w).len()
            &&& text::after(s, opt_written(w).len()) == rest
            &&& grammar::pre_value(s) == match w {
                Some(x) => Some((letter_of(x.word).unwrap(), text::number(x.digits))),
                None => None,
            }
        }),
{
    let s = opt_written(w) + rest;
    match w {
        Some(x) => {
            let tail = x.mid + x.digits + rest;
            if x.mid.len() > 0 {
                assert(tail[0] == x.mid[0]);
            } else if x.digits.len() > 0 {
                assert(is_figure(x.digits[0]));
                assert(tail[0] == x.digits[0]);
            } else {
                assert(tail =~= rest);
            }
            lemma_pre_word(x.word, tail);
            lemma_segment(x, rest);
        },
        None => {
            assert(s =~= rest);
            assert(text::after(s, 0) =~= rest);
            lemma_no_pre(grammar::past_separator(rest));
        },
    }
}

/// What follows where there is no post-release.
spec fn no_post(s: Seq<char>) -> bool {
    ||| s.len() == 0
    ||| s[0] == '+'
    ||| s[0] == 'd'
    ||| s.len() > 1 && text::is_separator(s[0]) && s[1] == 'd'
}

/// A post-release at the head of a text.
proof fn lemma_post(w: Option<Written>, rest: Seq<char>)
    requires
        breaks(rest),
        no_letter(rest),
        match w {
            Some(x) => well_written(x, rest) && is_post_word(x),
            None => no_post(rest),
        },
    ensures
        ({
            let s = opt_written(w) + rest;
            &&& grammar::post_len(s) == opt_written(w).len()
            &&& text::after(s, opt_written(w).len()) == rest
            &&& grammar::post_value(s) == match w {
                Some(x) => Some(text::number(x.digits)),
                None => None,
            }
            &&& w is Some ==> no_pre(grammar::past_separator(s)) && breaks(s) && no_letter(s)
        }),
{
    lemma_words();
    let s = opt_written(w) + rest;
    match w {
        Some(x) => {
            if x.word.len() == 0 {
                let d = x.digits;
                assert(written(x) =~= seq!['-'] + d);
                assert(s[0] == '-');
                assert(is_figure(d[0]));
                assert(s[1] == d[0]);
                assert(text::after(s, 1) =~= d + rest);
                lemma_all_figures(d);
                text::lemma_run_concat(Class::Digit, d, rest);
                assert(text::head(d + rest, d.len()) =~= d);
                assert(text::after(s, written(x).len()) =~= rest);
                assert(grammar::past_separator(s) =~= d + rest);
            } else {
                lemma_segment(x, rest);
                let tail = x.mid + x.digits + rest;
                if x.mid.len() > 0 {
                    assert(tail[0] == x.mid[0]);
                } else if x.digits.len() > 0 {
                    assert(is_figure(x.digits[0]));
                    assert(tail[0] == x.digits[0]);
                } else {
                    assert(tail =~= rest);
                }
                let u = x.word + tail;
                assert(u[0] == x.word[0]);
                lemma_starts_self(x.word, tail);
                if x.word == "post"@ {
                    assert(u[1] == 'o');
                } else if x.word == "rev"@ {
                    lemma_starts_not(u, "post"@, 0);
                    assert(u[1] == 'e');
                } else {
                    lemma_starts_not(u, "post"@, 0);
                    assert(u.skip(1) =~= tail);
                    lemma_starts_not(u, "rev"@, 1);
                }
                if x.sep.len() > 0 {
                    assert(s[0] == x.sep[0]);
                    assert(s[1] == x.word[0]);
                } else {
                    assert(s[0] == x.word[0]);
                }
            }
        },
        None => {
            assert(s =~= rest);
            assert(text::after(s, 0) =~= rest);
            let u = grammar::past_separator(rest);
            if rest.len() > 0 && text::is_separator(rest[0]) {
                assert(u[0] == rest[1]);
            } else {
                assert(u =~= rest);
            }
            lemma_starts_not(u, "post"@, 0);
            lemma_starts_not(u, "rev"@, 0);
            lemma_starts_not(u, "r"@, 0);
        },
    }
}

/// A development release at the head of a text.
proof fn lemma_dev(w: Option<Written>, rest: Seq<char>)
    requires
        match w {
            Some(x) => well_written(x, rest) && x.word == "dev"@,
            None => true,
        },
        rest.len() > 0 ==> rest[0] == '+',
    ensures
        ({
            let s = opt_written(w) + rest;
            &&& grammar::dev_len(s) == opt_written(w).len()
            &&& text::after(s, opt_written(w).len()) == rest
            &&& grammar::dev_value(s) == match w {
                Some(x) => Some(text::number(x.digits)),
                None => None,
            }
            &&& no_post(s)
            &&& no_pre(grammar::past_separator(s))
            &&& breaks(s)
            &&& no_letter(s)
        }),
{
    lemma_words();
    let s = opt_written(w) + rest;
    match w {
        Some(x) => {
            lemma_segment(x, rest);
            let tail = x.mid + x.digits + rest;
            let u = x.word + tail;
            lemma_starts_self(x.word, tail);
            assert(u[0] == 'd');
            if x.sep.len() > 0 {
                assert(s[0] == x.sep[0]);
                assert(s[1] == 'd');
            } else {
                assert(s[0] == 'd');
            }
        },
        None => {
            assert(s =~= rest);
            assert(text::after(s, 0) =~= rest);
            let u = grammar::past_separator(rest);
            assert(u =~= rest);
            lemma_starts_not(u, "dev"@, 0);
        },
    }
}

/// What a release cannot go on with: neither a digit, nor a dot and a digit. An epoch does not
/// end there either.
spec fn ends_release(s: Seq<char>) -> bool {
    s.len() > 0 ==> !is_figure(s[0]) && s[0] != '!' && !(s[0] == '.' && s.len() > 1 && is_figure(
        s[1],
    ))
}

proof fn lemma_ends(w: Option<Written>, rest: Seq<char>)
    requires
        ends_release(rest),
        w matches Some(x) ==> is_gap(x.sep) && if x.word.len() > 0 {
            is_letter(x.word[0])
        } else {
            x.sep == seq!['-']
        },
    ensures
        ends_release(opt_written(w) + rest),
{
    let s = opt_written(w) + rest;
    match w {
        Some(x) => {
            if x.sep.len() > 0 {
                assert(s[0] == x.sep[0]);
                if x.word.len() > 0 {
                    assert(s[1] == x.word[0]);
                }
            } else {
                assert(s[0] == x.word[0]);
            }
        },
        None => {
            assert(s =~= rest);
        },
    }
}

/// A local label as it is written: segments with one of the marks between each and the next.
pub open spec fn label_of(segments: Seq<Seq<char>>, marks: Seq<char>) -> Seq<char>
    decreases segments.len(),
{
    if segments.len() <= 1 {
        segments[0]
    } else {
        segments[0] + (seq![marks[0]] + label_of(segments.skip(1), marks.skip(1)))
    }
}

/// Whether a local label is well written: segments of lower-case letters and digits, none of
/// them empty, with dots, dashes and underscores between them.
pub open spec fn well_labelled(segments: Seq<Seq<char>>, marks: Seq<char>) -> bool {
    &&& segments.len() > 0
    &&& marks.len() == segments.len() - 1
    &&& forall|i: int| 0 <= i < segments.len() ==> (#[trigger] segments[i]).len() > 0
    &&& forall|i: int, j: int|
        0 <= i < segments.len() && 0 <= j < segments[i].len() ==> is_letter(
            #[trigger] segments[i][j],
        ) || is_figure(segments[i][j])
    &&& forall|i: int|
        0 <= i < marks.len() ==> #[trigger] marks[i] == '.' || marks[i] == '-' || marks[i] == '_'
}

/// A well-written label is read as its segments.
pub proof fn lemma_label(segments: Seq<Seq<char>>, marks: Seq<char>)
    requires
        well_labelled(segments, marks),
    ensures
        label_of(segments, marks).len() > 0,
        text::in_class(Class::Label, label_of(segments, marks)[0]),
        grammar::label_len(label_of(segments, marks)) == label_of(segments, marks).len(),
        text::split(label_of(segments, marks), grammar::separators()) == segments,
    decreases segments.len(),
{
    let k = Class::Label;
    let seps = grammar::separators();
    let s = label_of(segments, marks);
    let p = segments[0];
    assert forall|i: int| 0 <= i < p.len() implies text::in_class(k, #[trigger] p[i])
        && !seps.contains(p[i]) by {
        assert(is_letter(segments[0][i]) || is_figure(segments[0][i]));
    }
    assert(text::all_in(k, p));
    assert(s[0] == p[0]);
    if segments.len() == 1 {
        let none = Seq::<char>::empty();
        text::lemma_run_concat(k, p, none);
        assert(p + none =~= p);
        assert(text::after(p, p.len()) =~= none);
        text::lemma_first_of(s, seps, s.len() as int);
        assert(text::split(s, seps) =~= seq![s]);
        assert(segments =~= seq![s]);
    } else {
        let (more, rest) = (segments.skip(1), marks.skip(1));
        assert(well_labelled(more, rest)) by {
            assert forall|i: int| 0 <= i < more.len() implies (#[trigger] more[i]).len() > 0 by {
                assert(more[i] == segments[i + 1]);
            }
            assert forall|i: int, j: int| 0 <= i < more.len() && 0 <= j < more[i].len() implies
                is_letter(#[trigger] more[i][j]) || is_figure(more[i][j]) by {
                assert(more[i][j] == segments[i + 1][j]);
            }
            assert forall|i: int| 0 <= i < rest.len() implies #[trigger] rest[i] == '.' || rest[i]
                == '-' || rest[i] == '_' by {
                assert(rest[i] == marks[i + 1]);
            }
        }
        lemma_label(more, rest);
        let l = label_of(more, rest);
        let m = marks[0];
        let t = seq![m] + l;
        assert(s =~= p + t);
        assert(t[0] == m);
        assert(!text::in_class(k, m));
        assert(seps[0] == '.' && seps[1] == '_' && seps[2] == '-');
        assert(seps.contains(m));
        text::lemma_run_concat(k, p, t);
        assert(text::after(s, p.len()) =~= t);
        assert(text::after(t, 1) =~= l);
        assert(t[1] == l[0]);
        let n = text::run(k, l);
        assert(n > 0);
        text::lemma_run_len(k, l);
        assert(text::after(t, 1 + n) =~= text::after(l, n));
        assert forall|i: int| 0 <= i < p.len() implies !seps.contains(#[trigger] s[i]) by {
            assert(s[i] == p[i]);
        }
        assert(s[p.len() as int] == m);
        text::lemma_first_of(s, seps, p.len() as int);
        assert(s.take(p.len() as int) =~= p);
        assert(s.skip(p.len() as int + 1) =~= l);
        assert(seq![p] + more =~= segments);
    }
}

/// What a segment of a local label says: a number where it is of digits alone.
pub open spec fn part_of(segment: Seq<char>) -> LocalPart {
    if all_figures(segment) {
        LocalPart::Number(text::number(segment))
    } else {
        LocalPart::Text(segment)
    }
}

proof fn lemma_part_of(t: Seq<char>)
    requires
        t.len() > 0,
        forall|j: int| 0 <= j < t.len() ==> is_letter(#[trigger] t[j]) || is_figure(t[j]),
    ensures
        grammar::local_part(t) == part_of(t),
{
    if all_figures(t) {
        lemma_all_figures(t);
    } else {
        let j = choose|j: int| 0 <= j < t.len() && !is_figure(#[trigger] t[j]);
        assert(!text::in_class(Class::Digit, t[j]));
        assert(text::lower_text(t) =~= t);
    }
}

/// A segment of a well-written label says what it is read as.
pub proof fn lemma_segment_part(segments: Seq<Seq<char>>, marks: Seq<char>, i: int)
    requires
        well_labelled(segments, marks),
        0 <= i < segments.len(),
    ensures
        grammar::local_part(segments[i]) == part_of(segments[i]),
{
    let u = segments[i];
    assert(u.len() > 0);
    assert forall|j: int| 0 <= j < u.len() implies is_letter(#[trigger] u[j]) || is_figure(
        u[j],
    ) by {
        assert(is_letter(segments[i][j]) || is_figure(segments[i][j]));
    }
    lemma_part_of(u);
}

/// The text of a local label behind `+`, if there is one.
pub open spec fn opt_label(l: Option<(Seq<Seq<char>>, Seq<char>)>) -> Seq<char> {
    match l {
        Some((segments, marks)) => seq!['+'] + label_of(segments, marks),
        None => Seq::empty(),
    }
}

/// The text of an epoch, if there is one.
pub open spec fn opt_epoch(e: Option<Seq<char>>) -> Seq<char> {
    match e {
        Some(digits) => digits + seq!['!'],
        None => Seq::empty(),
    }
}

/// Whether no number of a version is beyond 64 bits.
pub open spec fn within_64_bits(v: VersionSpec) -> bool {
    &&& v.epoch <= u64::MAX
    &&& forall|i: int| 0 <= i < v.release.len() ==> #[trigger] v.release[i] <= u64::MAX
    &&& v.pre matches Some((_, n)) ==> n <= u64::MAX
    &&& v.post matches Some(n) ==> n <= u64::MAX
    &&& v.dev matches Some(n) ==> n <= u64::MAX
    &&& v.local matches Some(l) ==> forall|i: int|
        0 <= i < l.len() ==> (#[trigger] l[i] matches LocalPart::Number(n) ==> n <= u64::MAX)
}

proof fn lemma_fits(v: VersionSpec)
    ensures
        version::fits(v) <==> within_64_bits(v),
{
    if version::fits(v) {
        assert forall|i: int| 0 <= i < v.release.len() implies #[trigger] v.release[i]
            <= u64::MAX by {
            assert(version::small(v.release[i]));
        }
        if let Some(l) = v.local {
            assert forall|i: int| 0 <= i < l.len() implies (#[trigger] l[i] matches
                LocalPart::Number(n) ==> n <= u64::MAX) by {
                assert(version::small_part(l[i]));
            }
        }
    }
    if within_64_bits(v) {
        if let Some(l) = v.local {
            assert forall|i: int| 0 <= i < l.len() implies version::small_part(#[trigger] l[i]) by {}
        }
    }
}

/// A version as it is written, in lower case and without a leading `v`.
pub struct Spelled {
    /// The digits of the epoch.
    pub epoch: Option<Seq<char>>,
    /// The digits of the numbers of the release.
    pub release: Seq<Seq<char>>,
    pub pre: Option<Written>,
    pub post: Option<Written>,
    pub dev: Option<Written>,
    /// The segments of the local label, and what stands between them.
    pub local: Option<(Seq<Seq<char>>, Seq<char>)>,
}

/// The text of a version as it is written.
pub open spec fn spelled(s: Spelled) -> Seq<char> {
    opt_epoch(s.epoch) + (text::join(s.release, seq!['.']) + (opt_written(s.pre) + (opt_written(
        s.post,
    ) + (opt_written(s.dev) + opt_label(s.local)))))
}

/// Whether a version is well written: an optional epoch, numbers with dots between them, and
/// optional segments for pre-releases, post-releases, development releases and a local label,
/// in this order.
pub open spec fn well_spelled(s: Spelled) -> bool {
    let (post, dev, local) = (opt_written(s.post), opt_written(s.dev), opt_label(s.local));
    &&& s.epoch matches Some(e) ==> e.len() > 0 && all_figures(e)
    &&& s.release.len() > 0
    &&& forall|i: int|
        0 <= i < s.release.len() ==> (#[trigger] s.release[i]).len() > 0 && all_figures(
            s.release[i],
        )
    &&& s.pre matches Some(w) ==> letter_of(w.word) is Some && well_written(
        w,
        post + (dev + local),
    )
    &&& s.post matches Some(w) ==> is_post_word(w) && well_written(w, dev + local)
    &&& s.dev matches Some(w) ==> w.word == "dev"@ && well_written(w, local)
    &&& s.local matches Some((segments, marks)) ==> well_labelled(segments, marks)
}

/// What a version says as it is written. Missing digits are zeros.
pub open spec fn meaning(s: Spelled) -> VersionSpec {
    VersionSpec {
        epoch: match s.epoch {
            Some(e) => text::number(e),
            None => 0,
        },
        release: s.release.map_values(|d: Seq<char>| text::number(d)),
        pre: match s.pre {
            Some(w) => Some((letter_of(w.word).unwrap(), text::number(w.digits))),
            None => None,
        },
        post: match s.post {
            Some(w) => Some(text::number(w.digits)),
            None => None,
        },
        dev: match s.dev {
            Some(w) => Some(text::number(w.digits)),
            None => None,
        },
        local: match s.local {
            Some((segments, _)) => Some(segments.map_values(|t: Seq<char>| part_of(t))),
            None => None,
        },
    }
}

proof fn lemma_spelled_local(s: Spelled)
    requires
        well_spelled(s),
    ensures
        ({
            let t = opt_label(s.local);
            &&& t.len() > 0 ==> t[0] == '+'
            &&& grammar::local_len(t) == t.len()
            &&& t.len() > 0 <==> s.local is Some
            &&& t.len() > 0 ==> Some(grammar::local_parts(text::after(t, 1))) == meaning(s).local
        }),
{
    let t = opt_label(s.local);
    if let Some((segments, marks)) = s.local {
        lemma_label(segments, marks);
        let l = label_of(segments, marks);
        assert(text::after(t, 1) =~= l);
        let x = grammar::local_parts(l);
        let y = segments.map_values(|u: Seq<char>| part_of(u));
        assert forall|i: int| 0 <= i < x.len() implies x[i] == y[i] by {
            lemma_segment_part(segments, marks, i);
        }
        assert(x =~= y);
    }
}

proof fn lemma_spelled_release(release: Seq<Seq<char>>, rest: Seq<char>)
    requires
        release.len() > 0,
        forall|i: int|
            0 <= i < release.len() ==> (#[trigger] release[i]).len() > 0 && all_figures(release[i]),
        ends_release(rest),
    ensures
        ({
            let r = text::join(release, seq!['.']);
            let s = r + rest;
            &&& r.len() > 0 && is_figure(r[0])
            &&& grammar::release_len(s) == r.len()
            &&& text::head(s, r.len()) == r
            &&& text::after(s, r.len()) == rest
            &&& grammar::release_numbers(r) == release.map_values(|d: Seq<char>| text::number(d))
            &&& grammar::epoch_len(s) == 0
        }),
{
    let dot = grammar::dot();
    let r = text::join(release, seq!['.']);
    let s = r + rest;
    assert forall|i: int| 0 <= i < release.len() implies (#[trigger] release[i]).len() > 0
        && text::all_in(Class::Digit, release[i]) by {
        assert(all_figures(release[i]));
        lemma_all_figures(release[i]);
    }
    assert(dot[0] == '.');
    assert(dot.contains('.'));
    assert(seq!['.'] =~= dot);
    grammar::lemma_list_join(Class::Digit, dot, release, '.', rest);
    let d = release[0];
    let tail = if release.len() == 1 {
        rest
    } else {
        seq!['.'] + text::join(release.skip(1), seq!['.']) + rest
    };
    assert(s =~= d + tail);
    assert(all_figures(d));
    assert(is_figure(d[0]));
    assert(r[0] == d[0]);
    text::lemma_run_concat(Class::Digit, d, tail);
    if tail.len() > 0 {
        assert(s[d.len() as int] == tail[0]);
    }
    assert(text::head(s, r.len()) =~= r);
    assert(text::after(s, r.len()) =~= rest);
}

/// What the text of a version says: what each of its segments says, and nothing where one of its
/// numbers is beyond 64 bits.
pub proof fn law_reading(s: Spelled)
    requires
        well_spelled(s),
    ensures
        version::parse_version(spelled(s)) == if within_64_bits(meaning(s)) {
            Some(meaning(s))
        } else {
            None
        },
{
    lemma_read_spelled(s);
    let t = spelled(s);
    clause::lemma_version_chars(t);
    assert(grammar::is_version_char(t[0]));
    assert(grammar::is_version_char(t[t.len() - 1]));
    text::lemma_trim_none(t);
    lemma_fits(meaning(s));
}

/// What follows the release.
spec fn stages(s: Spelled) -> Seq<char> {
    opt_written(s.pre) + (opt_written(s.post) + (opt_written(s.dev) + opt_label(s.local)))
}

proof fn lemma_word_letters(w: Written)
    requires
        letter_of(w.word) is Some || is_post_word(w) || w.word == "dev"@,
    ensures
        if w.word.len() > 0 {
            is_letter(w.word[0])
        } else {
            w.sep == seq!['-']
        },
{
    lemma_words();
}

proof fn lemma_stages(s: Spelled)
    requires
        well_spelled(s),
    ensures
        ({
            let s3 = stages(s);
            let s4 = text::after(s3, grammar::pre_len(s3));
            let s5 = text::after(s4, grammar::post_len(s4));
            let s6 = text::after(s5, grammar::dev_len(s5));
            &&& grammar::pre_value(s3) == meaning(s).pre
            &&& grammar::post_value(s4) == meaning(s).post
            &&& grammar::dev_value(s5) == meaning(s).dev
            &&& s6 == opt_label(s.local)
        }),
{
    let s6 = opt_label(s.local);
    let s5 = opt_written(s.dev) + s6;
    let s4 = opt_written(s.post) + s5;
    lemma_spelled_local(s);
    lemma_dev(s.dev, s6);
    lemma_post(s.post, s5);
    if s.post is None {
        assert(s4 =~= s5);
    }
    lemma_pre(s.pre, s4);
}

proof fn lemma_stages_end(s: Spelled)
    requires
        well_spelled(s),
    ensures
        ends_release(stages(s)),
{
    let s6 = opt_label(s.local);
    let s5 = opt_written(s.dev) + s6;
    let s4 = opt_written(s.post) + s5;
    lemma_spelled_local(s);
    if let Some(w) = s.dev {
        lemma_word_letters(w);
    }
    if let Some(w) = s.post {
        lemma_word_letters(w);
    }
    if let Some(w) = s.pre {
        lemma_word_letters(w);
    }
    lemma_ends(s.dev, s6);
    lemma_ends(s.post, s5);
    lemma_ends(s.pre, s4);
}

proof fn lemma_spelled_epoch(s: Spelled)
    requires
        well_spelled(s),
    ensures
        ({
            let t = spelled(s);
            &&& t.len() > 0
            &&& grammar::v_len(t) == 0
            &&& text::after(t, 0) == t
            &&& grammar::epoch_value(t) == meaning(s).epoch
            &&& text::after(t, grammar::epoch_len(t)) == text::join(s.release, seq!['.']) + stages(
                s,
            )
        }),
{
    let r = text::join(s.release, seq!['.']);
    let s2 = r + stages(s);
    let t = spelled(s);
    lemma_stages_end(s);
    lemma_spelled_release(s.release, stages(s));
    assert(t =~= opt_epoch(s.epoch) + s2);
    assert(s2[0] == r[0]);
    assert(text::after(t, 0) =~= t);
    match s.epoch {
        Some(e) => {
            lemma_all_figures(e);
            let rest = seq!['!'] + s2;
            assert(t =~= e + rest);
            text::lemma_run_concat(Class::Digit, e, rest);
            assert(is_figure(e[0]));
            assert(t[0] == e[0]);
            assert(t[e.len() as int] == '!');
            assert(t[e.len() as int + 1] == s2[0]);
            assert(t.take(e.len() as int) =~= e);
            assert(text::after(t, e.len() + 1) =~= s2);
        },
        None => {
            assert(t =~= s2);
            assert(text::after(t, 0) =~= s2);
        },
    }
}

proof fn lemma_read_spelled(s: Spelled)
    requires
        well_spelled(s),
    ensures
        grammar::read_version(spelled(s)) == Some(meaning(s)),
        spelled(s).len() > 0,
{
    lemma_spelled_epoch(s);
    lemma_stages_end(s);
    lemma_spelled_release(s.release, stages(s));
    lemma_stages(s);
    lemma_spelled_local(s);
}

} // verus!
