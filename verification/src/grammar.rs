//! The grammar of versions and of version specifiers, read from left to right. Each function
//! of this module says how much of the head of a text one part of the grammar takes, and what
//! that part says. Letters are read without regard to their case.

use vstd::prelude::*;

use crate::text::{self, Class};

verus! {

/// The letter of a pre-release segment, in its canonical form. The grammar spells the letters
/// in many ways (`alpha`, `beta`, `c`, `pre`, `preview`, ...); these three are what they mean.
#[derive(Debug, Clone, Copy, PartialEq, Eq, Structural)]
pub enum PreLetter {
    A,
    B,
    Rc,
}

impl PreLetter {
    /// The canonical spelling, as it stands in a normalized version.
    pub open spec fn spelling(self) -> Seq<char> {
        match self {
            PreLetter::A => "a"@,
            PreLetter::B => "b"@,
            PreLetter::Rc => "rc"@,
        }
    }

    /// The canonical spelling, as it stands in a normalized version.
    pub fn as_str(self) -> (r: &'static str)
        ensures
            r@ == self.spelling(),
    {
        match self {
            PreLetter::A => "a",
            PreLetter::B => "b",
            PreLetter::Rc => "rc",
        }
    }
}

/// One segment of a local version label: all digits, or a text in lower case.
#[verifier::ext_equal]
pub enum LocalPart {
    Number(nat),
    Text(Seq<char>),
}

/// What a version says.
#[verifier::ext_equal]
pub struct VersionSpec {
    pub epoch: nat,
    pub release: Seq<nat>,
    pub pre: Option<(PreLetter, nat)>,
    pub post: Option<nat>,
    pub dev: Option<nat>,
    pub local: Option<Seq<LocalPart>>,
}

// --- The parts of a version. ---

/// A leading `v`.
pub open spec fn v_len(s: Seq<char>) -> nat {
    if s.len() > 0 && text::fold(s[0]) == 'v' {
        1
    } else {
        0
    }
}

/// An epoch: digits and `!`, before another digit.
pub open spec fn epoch_len(s: Seq<char>) -> nat {
    let n = text::run(Class::Digit, s);
    if n > 0 && n + 1 < s.len() && s[n as int] == '!' && text::is_digit(s[n as int + 1]) {
        n + 1
    } else {
        0
    }
}

/// What an epoch says; zero where there is none.
pub open spec fn epoch_value(s: Seq<char>) -> nat {
    if epoch_len(s) > 0 {
        text::number(s.take(epoch_len(s) - 1))
    } else {
        0
    }
}

/// The rest of a list of runs: any number of one of `marks` and a run of the class.
pub open spec fn rest_len(k: Class, marks: Seq<char>, s: Seq<char>) -> nat
    decreases s.len(),
{
    if s.len() >= 2 && marks.contains(s[0]) && text::in_class(k, s[1]) {
        proof {
            text::lemma_run_len(k, text::after(s, 1));
        }
        let n = 1 + text::run(k, text::after(s, 1));
        n + rest_len(k, marks, text::after(s, n))
    } else {
        0
    }
}

/// A list of runs: a run of the class, and any number of one of `marks` and a run of the class.
pub open spec fn list_len(k: Class, marks: Seq<char>, s: Seq<char>) -> nat {
    let n = text::run(k, s);
    if n == 0 {
        0
    } else {
        n + rest_len(k, marks, text::after(s, n))
    }
}

/// The dot, as a character to split at.
pub open spec fn dot() -> Seq<char> {
    seq!['.']
}

/// The separators, as characters to split at.
pub open spec fn separators() -> Seq<char> {
    seq!['.', '_', '-']
}

proof fn lemma_rest_head(k: Class, marks: Seq<char>, s: Seq<char>)
    ensures
        rest_len(k, marks, s) <= s.len(),
        rest_len(k, marks, text::head(s, rest_len(k, marks, s))) == rest_len(k, marks, s),
    decreases s.len(),
{
    if s.len() >= 2 && marks.contains(s[0]) && text::in_class(k, s[1]) {
        let t = text::after(s, 1);
        text::lemma_run_len(k, t);
        let n = 1 + text::run(k, t);
        let u = text::after(s, n);
        lemma_rest_head(k, marks, u);
        let m = rest_len(k, marks, u);
        let h = text::head(s, n + m);
        text::lemma_run_head(k, t, (n - 1 + m) as nat);
        assert(text::after(h, 1) =~= text::head(t, (n - 1 + m) as nat));
        assert(text::after(h, n) =~= text::head(u, m));
        assert(n >= 2);
    } else {
        assert(text::head(s, 0).len() == 0);
    }
}

/// The list of runs at the head of a text is a list of runs by itself.
pub proof fn lemma_list_head(k: Class, marks: Seq<char>, s: Seq<char>)
    ensures
        list_len(k, marks, s) <= s.len(),
        list_len(k, marks, text::head(s, list_len(k, marks, s))) == list_len(k, marks, s),
{
    text::lemma_run_len(k, s);
    let n = text::run(k, s);
    if n > 0 {
        let u = text::after(s, n);
        lemma_rest_head(k, marks, u);
        let m = rest_len(k, marks, u);
        text::lemma_run_head(k, s, n + m);
        assert(text::after(text::head(s, n + m), n) =~= text::head(u, m));
    } else {
        assert(text::head(s, 0).len() == 0);
    }
}

/// A text that is a list of runs splits at its marks into those runs.
pub proof fn lemma_list_split(k: Class, marks: Seq<char>, s: Seq<char>)
    requires
        s.len() > 0,
        list_len(k, marks, s) == s.len(),
        forall|c: char| text::in_class(k, c) ==> !(#[trigger] marks.contains(c)),
    ensures
        text::split(s, marks).len() > 0,
        forall|i: int|
            0 <= i < text::split(s, marks).len() ==> (#[trigger] text::split(s, marks)[i]).len() > 0
                && text::all_in(k, text::split(s, marks)[i]),
    decreases s.len(),
{
    let n = text::run(k, s);
    text::lemma_run_all(k, s);
    assert forall|i: int| 0 <= i < n implies !marks.contains(#[trigger] s[i]) by {
        assert(text::in_class(k, text::head(s, n)[i]));
    }
    let t = text::after(s, n);
    if n < s.len() {
        assert(marks.contains(t[0]));
        text::lemma_first_of(s, marks, n as int);
        let u = s.skip(n as int + 1);
        assert(text::after(t, 1) =~= u);
        let m = text::run(k, u);
        assert(text::after(t, 1 + m) =~= text::after(u, m));
        assert(u[0] == t[1]);
        lemma_list_split(k, marks, u);
        let whole = text::split(s, marks);
        let parts = text::split(u, marks);
        assert(whole =~= seq![s.take(n as int)] + parts);
        assert forall|i: int| 0 <= i < whole.len() implies (#[trigger] whole[i]).len() > 0
            && text::all_in(k, whole[i]) by {
            if i > 0 {
                assert(whole[i] == parts[i - 1]);
            }
        }
    } else {
        assert(text::head(s, n) =~= s);
        text::lemma_first_of(s, marks, n as int);
        assert(text::split(s, marks) =~= seq![s]);
    }
}

proof fn lemma_rest_join(
    k: Class,
    marks: Seq<char>,
    parts: Seq<Seq<char>>,
    mark: char,
    rest: Seq<char>,
)
    requires
        parts.len() > 0,
        marks.contains(mark),
        forall|i: int|
            0 <= i < parts.len() ==> (#[trigger] parts[i]).len() > 0 && text::all_in(k, parts[i]),
        forall|c: char| text::in_class(k, c) ==> !(#[trigger] marks.contains(c)),
        ends_list(k, marks, rest),
    ensures
        list_len(k, marks, text::join(parts, seq![mark]) + rest) == text::join(
            parts,
            seq![mark],
        ).len(),
    decreases parts.len(),
{
    let p = parts[0];
    let j = text::join(parts, seq![mark]);
    let s = j + rest;
    if parts.len() == 1 {
        text::lemma_run_concat(k, p, rest);
        assert(text::after(s, p.len()) =~= rest);
    } else {
        let more = parts.skip(1);
        assert forall|i: int| 0 <= i < more.len() implies (#[trigger] more[i]).len() > 0
            && text::all_in(k, more[i]) by {
            assert(more[i] == parts[i + 1]);
        }
        lemma_rest_join(k, marks, more, mark, rest);
        let m = text::join(more, seq![mark]);
        let tail = seq![mark] + m + rest;
        assert(s =~= p + tail);
        assert(!text::in_class(k, mark));
        text::lemma_run_concat(k, p, tail);
        assert(text::after(s, p.len()) =~= tail);
        assert(text::after(tail, 1) =~= m + rest);
        let n = text::run(k, m + rest);
        assert(n > 0);
        text::lemma_run_all(k, m + rest);
        assert(text::in_class(k, text::head(m + rest, n)[0]));
        assert(tail[1] == (m + rest)[0]);
        assert(text::after(tail, 1 + n) =~= text::after(m + rest, n));
    }
}

/// Whether a list of runs cannot go on with this text.
pub open spec fn ends_list(k: Class, marks: Seq<char>, s: Seq<char>) -> bool {
    s.len() > 0 ==> !text::in_class(k, s[0]) && !(marks.contains(s[0]) && s.len() >= 2
        && text::in_class(k, s[1]))
}

/// Runs that are joined with a mark are read as a list of runs.
pub proof fn lemma_list_join(
    k: Class,
    marks: Seq<char>,
    parts: Seq<Seq<char>>,
    mark: char,
    rest: Seq<char>,
)
    requires
        parts.len() > 0,
        marks.contains(mark),
        forall|i: int|
            0 <= i < parts.len() ==> (#[trigger] parts[i]).len() > 0 && text::all_in(k, parts[i]),
        forall|c: char| text::in_class(k, c) ==> !(#[trigger] marks.contains(c)),
        ends_list(k, marks, rest),
    ensures
        list_len(k, marks, text::join(parts, seq![mark]) + rest) == text::join(
            parts,
            seq![mark],
        ).len(),
        text::split(text::join(parts, seq![mark]), marks) == parts,
{
    lemma_rest_join(k, marks, parts, mark, rest);
    assert forall|i: int, j: int|
        0 <= i < parts.len() && 0 <= j < parts[i].len() implies !marks.contains(
        #[trigger] parts[i][j],
    ) by {
        assert(text::all_in(k, parts[i]));
        assert(text::in_class(k, parts[i][j]));
    }
    text::lemma_split_join(parts, mark, marks);
}

/// A release: digits, and any number of a dot and digits.
pub open spec fn release_len(s: Seq<char>) -> nat {
    list_len(Class::Digit, dot(), s)
}

/// An optional separator.
pub open spec fn separator_len(s: Seq<char>) -> nat {
    if s.len() > 0 && text::is_separator(s[0]) {
        1
    } else {
        0
    }
}

/// A spelling of a pre-release letter: the letter and the length of the spelling.
pub open spec fn pre_word(s: Seq<char>) -> Option<(PreLetter, nat)> {
    if text::starts_folded(s, "alpha"@) {
        Some((PreLetter::A, 5))
    } else if text::starts_folded(s, "a"@) {
        Some((PreLetter::A, 1))
    } else if text::starts_folded(s, "beta"@) {
        Some((PreLetter::B, 4))
    } else if text::starts_folded(s, "b"@) {
        Some((PreLetter::B, 1))
    } else if text::starts_folded(s, "preview"@) {
        Some((PreLetter::Rc, 7))
    } else if text::starts_folded(s, "pre"@) {
        Some((PreLetter::Rc, 3))
    } else if text::starts_folded(s, "c"@) {
        Some((PreLetter::Rc, 1))
    } else if text::starts_folded(s, "rc"@) {
        Some((PreLetter::Rc, 2))
    } else {
        None
    }
}

/// A spelling of the post-release word; zero where there is none.
pub open spec fn post_word(s: Seq<char>) -> nat {
    if text::starts_folded(s, "post"@) {
        4
    } else if text::starts_folded(s, "rev"@) {
        3
    } else if text::starts_folded(s, "r"@) {
        1
    } else {
        0
    }
}

/// The word of a development release; zero where there is none.
pub open spec fn dev_word(s: Seq<char>) -> nat {
    if text::starts_folded(s, "dev"@) {
        3
    } else {
        0
    }
}

/// A segment made of an optional separator, a word of `word` characters, an optional separator
/// and optional digits. Nothing where there is no word.
pub open spec fn segment_len(s: Seq<char>, word: nat) -> nat {
    if word == 0 {
        0
    } else {
        let n = separator_len(s) + word;
        let m = n + separator_len(text::after(s, n));
        m + text::run(Class::Digit, text::after(s, m))
    }
}

/// The number of such a segment; zero where it has no digits.
pub open spec fn segment_number(s: Seq<char>, word: nat) -> nat {
    let n = separator_len(s) + word;
    let m = n + separator_len(text::after(s, n));
    text::number(text::head(text::after(s, m), text::run(Class::Digit, text::after(s, m))))
}

/// What follows an optional separator.
pub open spec fn past_separator(s: Seq<char>) -> Seq<char> {
    text::after(s, separator_len(s))
}

/// A pre-release segment.
pub open spec fn pre_len(s: Seq<char>) -> nat {
    match pre_word(past_separator(s)) {
        Some((_, w)) => segment_len(s, w),
        None => 0,
    }
}

/// What a pre-release segment says.
pub open spec fn pre_value(s: Seq<char>) -> Option<(PreLetter, nat)> {
    match pre_word(past_separator(s)) {
        Some((l, w)) => Some((l, segment_number(s, w))),
        None => None,
    }
}

/// Whether a post-release is written as a dash and digits.
pub open spec fn is_dash_post(s: Seq<char>) -> bool {
    s.len() >= 2 && s[0] == '-' && text::is_digit(s[1])
}

/// A post-release segment.
pub open spec fn post_len(s: Seq<char>) -> nat {
    if is_dash_post(s) {
        1 + text::run(Class::Digit, text::after(s, 1))
    } else {
        segment_len(s, post_word(past_separator(s)))
    }
}

/// What a post-release segment says.
pub open spec fn post_value(s: Seq<char>) -> Option<nat> {
    if is_dash_post(s) {
        Some(text::number(text::head(text::after(s, 1), text::run(Class::Digit, text::after(s, 1)))))
    } else if post_word(past_separator(s)) > 0 {
        Some(segment_number(s, post_word(past_separator(s))))
    } else {
        None
    }
}

/// A development-release segment.
pub open spec fn dev_len(s: Seq<char>) -> nat {
    segment_len(s, dev_word(past_separator(s)))
}

/// What a development-release segment says.
pub open spec fn dev_value(s: Seq<char>) -> Option<nat> {
    if dev_word(past_separator(s)) > 0 {
        Some(segment_number(s, dev_word(past_separator(s))))
    } else {
        None
    }
}

/// A local label: letters or digits, and any number of a separator and letters or digits.
pub open spec fn label_len(s: Seq<char>) -> nat {
    list_len(Class::Label, separators(), s)
}

/// A local segment: `+` and a local label.
pub open spec fn local_len(s: Seq<char>) -> nat {
    if s.len() > 0 && s[0] == '+' && label_len(text::after(s, 1)) > 0 {
        1 + label_len(text::after(s, 1))
    } else {
        0
    }
}

/// What one segment of a local label says.
pub open spec fn local_part(s: Seq<char>) -> LocalPart {
    if s.len() > 0 && text::all_in(Class::Digit, s) {
        LocalPart::Number(text::number(s))
    } else {
        LocalPart::Text(text::lower_text(s))
    }
}

/// What a local label says.
pub open spec fn local_parts(s: Seq<char>) -> Seq<LocalPart> {
    text::split(s, separators()).map_values(|p: Seq<char>| local_part(p))
}

/// What a release says.
pub open spec fn release_numbers(s: Seq<char>) -> Seq<nat> {
    text::split(s, dot()).map_values(|p: Seq<char>| text::number(p))
}

/// A whole version, with nothing around it.
pub open spec fn read_version(s: Seq<char>) -> Option<VersionSpec> {
    let s1 = text::after(s, v_len(s));
    let s2 = text::after(s1, epoch_len(s1));
    let s3 = text::after(s2, release_len(s2));
    let s4 = text::after(s3, pre_len(s3));
    let s5 = text::after(s4, post_len(s4));
    let s6 = text::after(s5, dev_len(s5));
    if release_len(s2) > 0 && local_len(s6) == s6.len() {
        Some(
            VersionSpec {
                epoch: epoch_value(s1),
                release: release_numbers(text::head(s2, release_len(s2))),
                pre: pre_value(s3),
                post: post_value(s4),
                dev: dev_value(s5),
                local: if s6.len() > 0 {
                    Some(local_parts(text::after(s6, 1)))
                } else {
                    None
                },
            },
        )
    } else {
        None
    }
}

// --- The characters of a version. ---

/// A character that can stand in a version.
pub open spec fn is_version_char(c: char) -> bool {
    text::in_class(Class::Label, c) || text::is_separator(c) || c == '!' || c == '+'
}

/// Whether the first `n` characters of a text can stand in a version.
pub open spec fn version_chars(s: Seq<char>, n: nat) -> bool {
    n <= s.len() && forall|i: int| 0 <= i < n ==> is_version_char(#[trigger] s[i])
}

proof fn lemma_rest_chars(k: Class, marks: Seq<char>, s: Seq<char>)
    requires
        k == Class::Digit || k == Class::Label,
        marks == dot() || marks == separators(),
    ensures
        version_chars(s, rest_len(k, marks, s)),
    decreases s.len(),
{
    if s.len() >= 2 && marks.contains(s[0]) && text::in_class(k, s[1]) {
        let t = text::after(s, 1);
        text::lemma_run_all(k, t);
        let n = 1 + text::run(k, t);
        let u = text::after(s, n);
        lemma_rest_chars(k, marks, u);
        assert forall|i: int| 0 <= i < n + rest_len(k, marks, u) implies is_version_char(
            #[trigger] s[i],
        ) by {
            if i == 0 {
                let j = choose|j: int| 0 <= j < marks.len() && marks[j] == s[0];
            } else if i < n {
                assert(text::in_class(k, text::head(t, (n - 1) as nat)[i - 1]));
            } else {
                assert(is_version_char(u[i - n]));
            }
        }
    }
}

proof fn lemma_list_chars(k: Class, marks: Seq<char>, s: Seq<char>)
    requires
        k == Class::Digit || k == Class::Label,
        marks == dot() || marks == separators(),
    ensures
        version_chars(s, list_len(k, marks, s)),
{
    text::lemma_run_all(k, s);
    let n = text::run(k, s);
    if n > 0 {
        let u = text::after(s, n);
        lemma_rest_chars(k, marks, u);
        assert forall|i: int| 0 <= i < n + rest_len(k, marks, u) implies is_version_char(
            #[trigger] s[i],
        ) by {
            if i < n {
                assert(text::in_class(k, text::head(s, n)[i]));
            } else {
                assert(is_version_char(u[i - n]));
            }
        }
    }
}

proof fn lemma_segment_chars(s: Seq<char>, word: Seq<char>)
    requires
        text::starts_folded(past_separator(s), word),
        word.len() > 0,
        forall|i: int| 0 <= i < word.len() ==> 'a' <= #[trigger] word[i] <= 'z',
    ensures
        version_chars(s, segment_len(s, word.len())),
{
    let p = separator_len(s);
    let n = p + word.len();
    let m = n + separator_len(text::after(s, n));
    let t = text::after(s, m);
    text::lemma_run_all(Class::Digit, t);
    let u = past_separator(s);
    assert forall|i: int| 0 <= i < m + text::run(Class::Digit, t) implies is_version_char(
        #[trigger] s[i],
    ) by {
        if i < p {
        } else if i < n {
            assert(text::fold(u[i - p]) == word[i - p]);
            assert(s[i] == u[i - p]);
        } else if i < m {
            assert(s[i] == text::after(s, n)[0]);
        } else {
            assert(text::in_class(Class::Digit, text::head(t, text::run(Class::Digit, t))[i - m]));
        }
    }
}

/// A pre-release segment is made of version characters.
pub proof fn lemma_pre_chars(s: Seq<char>)
    ensures
        version_chars(s, pre_len(s)),
{
    reveal_strlit("alpha");
    reveal_strlit("a");
    reveal_strlit("beta");
    reveal_strlit("b");
    reveal_strlit("preview");
    reveal_strlit("pre");
    reveal_strlit("c");
    reveal_strlit("rc");
    let t = past_separator(s);
    if text::starts_folded(t, "alpha"@) {
        lemma_segment_chars(s, "alpha"@);
    } else if text::starts_folded(t, "a"@) {
        lemma_segment_chars(s, "a"@);
    } else if text::starts_folded(t, "beta"@) {
        lemma_segment_chars(s, "beta"@);
    } else if text::starts_folded(t, "b"@) {
        lemma_segment_chars(s, "b"@);
    } else if text::starts_folded(t, "preview"@) {
        lemma_segment_chars(s, "preview"@);
    } else if text::starts_folded(t, "pre"@) {
        lemma_segment_chars(s, "pre"@);
    } else if text::starts_folded(t, "c"@) {
        lemma_segment_chars(s, "c"@);
    } else if text::starts_folded(t, "rc"@) {
        lemma_segment_chars(s, "rc"@);
    }
}

/// A post-release segment is made of version characters.
pub proof fn lemma_post_chars(s: Seq<char>)
    ensures
        version_chars(s, post_len(s)),
{
    reveal_strlit("post");
    reveal_strlit("rev");
    reveal_strlit("r");
    let t = past_separator(s);
    if is_dash_post(s) {
        let u = text::after(s, 1);
        text::lemma_run_all(Class::Digit, u);
        assert forall|i: int| 0 <= i < post_len(s) implies is_version_char(#[trigger] s[i]) by {
            if i > 0 {
                assert(text::in_class(
                    Class::Digit,
                    text::head(u, text::run(Class::Digit, u))[i - 1],
                ));
            }
        }
    } else if text::starts_folded(t, "post"@) {
        lemma_segment_chars(s, "post"@);
    } else if text::starts_folded(t, "rev"@) {
        lemma_segment_chars(s, "rev"@);
    } else if text::starts_folded(t, "r"@) {
        lemma_segment_chars(s, "r"@);
    }
}

/// A development-release segment is made of version characters.
pub proof fn lemma_dev_chars(s: Seq<char>)
    ensures
        version_chars(s, dev_len(s)),
{
    reveal_strlit("dev");
    if text::starts_folded(past_separator(s), "dev"@) {
        lemma_segment_chars(s, "dev"@);
    }
}

/// A local segment is made of version characters.
pub proof fn lemma_local_chars(s: Seq<char>)
    ensures
        version_chars(s, local_len(s)),
{
    if s.len() > 0 {
        let t = text::after(s, 1);
        lemma_list_chars(Class::Label, separators(), t);
        assert forall|i: int| 0 <= i < local_len(s) implies is_version_char(#[trigger] s[i]) by {
            if i > 0 {
                assert(is_version_char(t[i - 1]));
            }
        }
    }
}

/// A leading `v`, an epoch and a release are made of version characters.
pub proof fn lemma_base_chars(s: Seq<char>)
    ensures
        version_chars(s, v_len(s)),
        version_chars(s, epoch_len(s)),
        version_chars(s, release_len(s)),
{
    text::lemma_run_all(Class::Digit, s);
    assert forall|i: int| 0 <= i < epoch_len(s) implies is_version_char(#[trigger] s[i]) by {
        if i < epoch_len(s) - 1 {
            assert(text::in_class(Class::Digit, text::head(s, text::run(Class::Digit, s))[i]));
        }
    }
    lemma_list_chars(Class::Digit, dot(), s);
}

/// What comes after a head of version characters, if it is of version characters too, makes a
/// longer such head.
pub proof fn lemma_chars_add(s: Seq<char>, m: nat, n: nat)
    requires
        version_chars(s, m),
        version_chars(text::after(s, m), n),
    ensures
        version_chars(s, m + n),
        text::after(text::after(s, m), n) == text::after(s, m + n),
{
    assert forall|i: int| 0 <= i < m + n implies is_version_char(#[trigger] s[i]) by {
        if i >= m {
            assert(is_version_char(text::after(s, m)[i - m]));
        }
    }
    assert(text::after(text::after(s, m), n) =~= text::after(s, m + n));
}

} // verus!
