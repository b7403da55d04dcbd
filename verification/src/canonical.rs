//! The canonical text of a version, and the proof that reading it gives the version back.

use vstd::prelude::*;

use crate::grammar::{self, LocalPart, PreLetter, VersionSpec};
use crate::text::{self, Class};
use crate::version;

verus! {

/// Numbers in decimal notation.
pub open spec fn decimals(r: Seq<nat>) -> Seq<Seq<char>> {
    r.map_values(|n: nat| text::decimal(n))
}

/// An epoch: nothing where it is zero.
pub open spec fn epoch_text(n: nat) -> Seq<char> {
    if n == 0 {
        Seq::empty()
    } else {
        text::decimal(n).push('!')
    }
}

/// A release: its numbers with dots between them.
pub open spec fn release_text(r: Seq<nat>) -> Seq<char> {
    text::join(decimals(r), grammar::dot())
}

/// A pre-release segment.
pub open spec fn pre_text(p: Option<(PreLetter, nat)>) -> Seq<char> {
    match p {
        Some((l, n)) => l.spelling() + text::decimal(n),
        None => Seq::empty(),
    }
}

/// A post-release segment.
pub open spec fn post_text(p: Option<nat>) -> Seq<char> {
    match p {
        Some(n) => ".post"@ + text::decimal(n),
        None => Seq::empty(),
    }
}

/// A development-release segment.
pub open spec fn dev_text(p: Option<nat>) -> Seq<char> {
    match p {
        Some(n) => ".dev"@ + text::decimal(n),
        None => Seq::empty(),
    }
}

/// One segment of a local label.
pub open spec fn part_text(p: LocalPart) -> Seq<char> {
    match p {
        LocalPart::Number(n) => text::decimal(n),
        LocalPart::Text(t) => t,
    }
}

/// The segments of a local label, each as text.
pub open spec fn part_texts(l: Seq<LocalPart>) -> Seq<Seq<char>> {
    l.map_values(|p: LocalPart| part_text(p))
}

/// A local label: its segments with dots between them.
pub open spec fn label_text(l: Seq<LocalPart>) -> Seq<char> {
    text::join(part_texts(l), grammar::dot())
}

/// The label of a version that has one.
pub open spec fn opt_label(l: Option<Seq<LocalPart>>) -> Option<Seq<char>> {
    match l {
        Some(p) => Some(label_text(p)),
        None => None,
    }
}

/// A local segment.
pub open spec fn local_text(l: Option<Seq<LocalPart>>) -> Seq<char> {
    match l {
        Some(p) => "+"@ + label_text(p),
        None => Seq::empty(),
    }
}

/// The epoch and the release.
pub open spec fn base_text(v: VersionSpec) -> Seq<char> {
    epoch_text(v.epoch) + release_text(v.release)
}

/// All but the local label.
pub open spec fn public_text(v: VersionSpec) -> Seq<char> {
    base_text(v) + pre_text(v.pre) + post_text(v.post) + dev_text(v.dev)
}

/// The canonical text of a version.
pub open spec fn render(v: VersionSpec) -> Seq<char> {
    public_text(v) + local_text(v.local)
}

/// The canonical text of a version, with or without the zeros at the end of its release. The
/// first number of the release always stays.
pub open spec fn canonical_text(v: VersionSpec, strip_trailing_zero: bool) -> Seq<char> {
    if strip_trailing_zero {
        render(VersionSpec { release: version::trim_keeping_one(v.release), ..v })
    } else {
        render(v)
    }
}

/// The canonical text of what a text says as a version. A text that says none stays as it is.
pub open spec fn canonicalize(s: Seq<char>, strip_trailing_zero: bool) -> Seq<char> {
    match version::parse_version(s) {
        Some(v) => canonical_text(v, strip_trailing_zero),
        None => s,
    }
}

// --- Reading the canonical text. ---

/// Whether a text may follow digits without going on with them.
spec fn stops(s: Seq<char>) -> bool {
    s.len() > 0 ==> !text::is_digit(s[0]) && s[0] != '!'
}

proof fn lemma_word(s: Seq<char>, word: Seq<char>, n: nat, rest: Seq<char>)
    requires
        s == word + text::decimal(n) + rest,
        stops(rest),
        word.len() > 0,
        !text::is_separator(word[0]),
    ensures
        grammar::segment_len(s, word.len()) == word.len() + text::decimal(n).len(),
        grammar::segment_number(s, word.len()) == n,
        text::after(s, word.len() + text::decimal(n).len()) == rest,
{
    let d = text::decimal(n);
    text::lemma_decimal(n);
    assert(s[0] == word[0]);
    let t = text::after(s, word.len());
    assert(t =~= d + rest);
    assert(text::in_class(Class::Digit, d[0]));
    assert(t[0] == d[0]);
    assert(grammar::separator_len(t) == 0);
    text::lemma_run_concat(Class::Digit, d, rest);
    assert(text::head(t, d.len()) =~= d);
    assert(text::after(s, word.len() + d.len()) =~= rest);
}

proof fn lemma_dotted_word(s: Seq<char>, word: Seq<char>, n: nat, rest: Seq<char>)
    requires
        s == seq!['.'] + word + text::decimal(n) + rest,
        stops(rest),
        word.len() > 0,
        !text::is_separator(word[0]),
    ensures
        grammar::segment_len(s, word.len()) == 1 + word.len() + text::decimal(n).len(),
        grammar::segment_number(s, word.len()) == n,
        grammar::past_separator(s) == word + text::decimal(n) + rest,
        text::after(s, 1 + word.len() + text::decimal(n).len()) == rest,
{
    let d = text::decimal(n);
    text::lemma_decimal(n);
    assert(grammar::separator_len(s) == 1);
    assert(grammar::past_separator(s) =~= word + d + rest);
    let t = text::after(s, 1 + word.len());
    assert(t =~= d + rest);
    assert(text::in_class(Class::Digit, d[0]));
    assert(t[0] == d[0]);
    assert(grammar::separator_len(t) == 0);
    text::lemma_run_concat(Class::Digit, d, rest);
    assert(text::head(t, d.len()) =~= d);
    assert(text::after(s, 1 + word.len() + d.len()) =~= rest);
}

/// What can follow the development segment.
spec fn tail_local(v: VersionSpec) -> Seq<char> {
    local_text(v.local)
}

/// What can follow the post-release segment.
spec fn tail_dev(v: VersionSpec) -> Seq<char> {
    dev_text(v.dev) + tail_local(v)
}

/// What can follow the pre-release segment.
spec fn tail_post(v: VersionSpec) -> Seq<char> {
    post_text(v.post) + tail_dev(v)
}

/// What can follow the release.
spec fn tail_pre(v: VersionSpec) -> Seq<char> {
    pre_text(v.pre) + tail_post(v)
}

proof fn lemma_tail_shapes(v: VersionSpec)
    ensures
        tail_local(v).len() > 0 ==> tail_local(v)[0] == '+',
        v.dev is Some ==> tail_dev(v).len() >= 4 && tail_dev(v)[0] == '.' && tail_dev(v)[1] == 'd'
            && tail_dev(v)[2] == 'e',
        v.dev is None ==> tail_dev(v) == tail_local(v),
        v.post is Some ==> tail_post(v).len() >= 5 && tail_post(v)[0] == '.' && tail_post(v)[1]
            == 'p' && tail_post(v)[2] == 'o',
        v.post is None ==> tail_post(v) == tail_dev(v),
        v.pre is None ==> tail_pre(v) == tail_post(v),
        v.pre matches Some((l, _)) ==> tail_pre(v).len() > 0 && tail_pre(v)[0] == l.spelling()[0],
        "a"@ == seq!['a'],
        "b"@ == seq!['b'],
        "rc"@ == seq!['r', 'c'],
        ".dev"@ == seq!['.', 'd', 'e', 'v'],
        ".post"@ == seq!['.', 'p', 'o', 's', 't'],
{
    reveal_strlit("+");
    reveal_strlit(".dev");
    reveal_strlit(".post");
    reveal_strlit("a");
    reveal_strlit("b");
    reveal_strlit("rc");
    assert("a"@ =~= seq!['a']);
    assert("b"@ =~= seq!['b']);
    assert("rc"@ =~= seq!['r', 'c']);
    assert(".dev"@ =~= seq!['.', 'd', 'e', 'v']);
    assert(".post"@ =~= seq!['.', 'p', 'o', 's', 't']);
    if v.dev is None {
        assert(tail_dev(v) =~= tail_local(v));
    }
    if v.post is None {
        assert(tail_post(v) =~= tail_dev(v));
    }
    if v.pre is None {
        assert(tail_pre(v) =~= tail_post(v));
    }
}

proof fn lemma_read_dev(v: VersionSpec)
    ensures
        grammar::dev_value(tail_dev(v)) == v.dev,
        text::after(tail_dev(v), grammar::dev_len(tail_dev(v))) == tail_local(v),
{
    lemma_tail_shapes(v);
    let s = tail_dev(v);
    reveal_strlit("dev");
    match v.dev {
        Some(n) => {
            let word = "dev"@;
            assert(s =~= seq!['.'] + word + text::decimal(n) + tail_local(v));
            lemma_dotted_word(s, word, n, tail_local(v));
            assert(text::starts_folded(grammar::past_separator(s), word));
        },
        None => {
            assert(grammar::past_separator(s) =~= s);
            assert(!text::starts_folded(s, "dev"@)) by {
                if s.len() >= 3 {
                    assert(text::fold(s[0]) != "dev"@[0]);
                }
            }
            assert(text::after(s, 0) =~= s);
        },
    }
}

proof fn lemma_read_post(v: VersionSpec)
    ensures
        grammar::post_value(tail_post(v)) == v.post,
        text::after(tail_post(v), grammar::post_len(tail_post(v))) == tail_dev(v),
{
    lemma_tail_shapes(v);
    let s = tail_post(v);
    reveal_strlit("post");
    reveal_strlit("rev");
    reveal_strlit("r");
    match v.post {
        Some(n) => {
            let word = "post"@;
            assert(s =~= seq!['.'] + word + text::decimal(n) + tail_dev(v));
            lemma_dotted_word(s, word, n, tail_dev(v));
            assert(text::starts_folded(grammar::past_separator(s), word));
        },
        None => {
            let t = grammar::past_separator(s);
            if v.dev is Some {
                assert(t =~= s.skip(1));
                assert(t[0] == 'd');
            } else {
                assert(t =~= s);
            }
            if t.len() > 0 {
                assert(text::fold(t[0]) != "post"@[0]);
                assert(text::fold(t[0]) != "rev"@[0]);
                assert(text::fold(t[0]) != "r"@[0]);
            }
            assert(grammar::post_word(t) == 0);
            assert(text::after(s, 0) =~= s);
        },
    }
}

proof fn lemma_no_pre(t: Seq<char>)
    requires
        t.len() > 0 ==> text::fold(t[0]) == 'd' || text::fold(t[0]) == '+' || text::fold(t[0])
            == 'p',
        t.len() > 1 && text::fold(t[0]) == 'p' ==> text::fold(t[1]) == 'o',
    ensures
        grammar::pre_word(t) is None,
{
    reveal_strlit("alpha");
    reveal_strlit("a");
    reveal_strlit("beta");
    reveal_strlit("b");
    reveal_strlit("preview");
    reveal_strlit("pre");
    reveal_strlit("c");
    reveal_strlit("rc");
    if t.len() > 0 {
        assert(text::fold(t[0]) != "alpha"@[0]);
        assert(text::fold(t[0]) != "a"@[0]);
        assert(text::fold(t[0]) != "beta"@[0]);
        assert(text::fold(t[0]) != "b"@[0]);
        assert(text::fold(t[0]) != "c"@[0]);
        assert(text::fold(t[0]) != "rc"@[0]);
        if t.len() > 1 {
            assert(text::fold(t[0]) != "pre"@[0] || text::fold(t[1]) != "pre"@[1]);
            assert(text::fold(t[0]) != "preview"@[0] || text::fold(t[1]) != "preview"@[1]);
        }
    }
}

proof fn lemma_pre_word(l: PreLetter, t: Seq<char>)
    requires
        t.len() > l.spelling().len(),
        t.take(l.spelling().len() as int) == l.spelling(),
        text::is_digit(t[l.spelling().len() as int]),
    ensures
        grammar::pre_word(t) == Some((l, l.spelling().len())),
{
    reveal_strlit("alpha");
    reveal_strlit("a");
    reveal_strlit("beta");
    reveal_strlit("b");
    reveal_strlit("preview");
    reveal_strlit("pre");
    reveal_strlit("c");
    reveal_strlit("rc");
    let w = l.spelling();
    assert(t[0] == w[0]) by {
        assert(t.take(w.len() as int)[0] == t[0]);
    }
    match l {
        PreLetter::A => {
            assert(text::fold(t[1]) != "alpha"@[1]);
            assert(text::starts_folded(t, "a"@));
        },
        PreLetter::B => {
            assert(text::fold(t[0]) != "alpha"@[0]);
            assert(text::fold(t[0]) != "a"@[0]);
            assert(text::fold(t[1]) != "beta"@[1]);
            assert(text::starts_folded(t, "b"@));
        },
        PreLetter::Rc => {
            assert(t.take(w.len() as int)[1] == t[1]);
            assert(text::fold(t[0]) != "alpha"@[0]);
            assert(text::fold(t[0]) != "a"@[0]);
            assert(text::fold(t[0]) != "beta"@[0]);
            assert(text::fold(t[0]) != "b"@[0]);
            assert(text::fold(t[0]) != "preview"@[0]);
            assert(text::fold(t[0]) != "pre"@[0]);
            assert(text::fold(t[0]) != "c"@[0]);
            assert(text::starts_folded(t, "rc"@));
        },
    }
}

proof fn lemma_read_pre(v: VersionSpec)
    ensures
        grammar::pre_value(tail_pre(v)) == v.pre,
        text::after(tail_pre(v), grammar::pre_len(tail_pre(v))) == tail_post(v),
{
    lemma_tail_shapes(v);
    let s = tail_pre(v);
    match v.pre {
        Some((l, n)) => {
            let word = l.spelling();
            let d = text::decimal(n);
            text::lemma_decimal(n);
            assert(s =~= word + d + tail_post(v));
            assert(grammar::past_separator(s) =~= s);
            assert(text::in_class(Class::Digit, d[0]));
            assert(s[word.len() as int] == d[0]);
            assert(s.take(word.len() as int) =~= word);
            lemma_pre_word(l, s);
            lemma_word(s, word, n, tail_post(v));
        },
        None => {
            let t = grammar::past_separator(s);
            if v.post is Some || v.dev is Some {
                assert(t =~= s.skip(1));
            } else {
                assert(t =~= s);
            }
            lemma_no_pre(t);
            assert(text::after(s, 0) =~= s);
        },
    }
}

proof fn lemma_release_shape(v: VersionSpec)
    requires
        v.release.len() > 0,
    ensures
        ({
            let s = release_text(v.release) + tail_pre(v);
            let n = release_text(v.release).len();
            &&& grammar::release_len(s) == n
            &&& n > 0
            &&& text::is_digit(s[0])
            &&& text::head(s, n) == release_text(v.release)
            &&& text::after(s, n) == tail_pre(v)
            &&& grammar::release_numbers(text::head(s, n)) == v.release
            &&& grammar::epoch_len(s) == 0
        }),
{
    let r = v.release;
    let ds = decimals(r);
    let t = release_text(r);
    let rest = tail_pre(v);
    let s = t + rest;
    lemma_tail_shapes(v);
    assert forall|i: int| 0 <= i < ds.len() implies (#[trigger] ds[i]).len() > 0 && text::all_in(
        Class::Digit,
        ds[i],
    ) by {
        text::lemma_decimal(r[i]);
    }
    assert(grammar::dot().contains('.')) by {
        assert(grammar::dot()[0] == '.');
    }
    grammar::lemma_list_join(Class::Digit, grammar::dot(), ds, '.', rest);
    assert(seq!['.'] =~= grammar::dot());
    assert(text::head(s, t.len()) =~= t);
    assert(text::after(s, t.len()) =~= rest);
    assert(grammar::release_numbers(t) =~= r) by {
        assert forall|i: int| 0 <= i < r.len() implies text::number(ds[i]) == r[i] by {
            text::lemma_decimal(r[i]);
        }
    }
    let d = ds[0];
    let more = s.skip(d.len() as int);
    assert(s =~= d + more);
    assert(text::in_class(Class::Digit, d[0]));
    if ds.len() == 1 {
        assert(more =~= rest);
    } else {
        assert(more[0] == '.');
    }
    text::lemma_run_concat(Class::Digit, d, more);
    if d.len() < s.len() {
        assert(s[d.len() as int] == more[0]);
    }
}

/// Reading back what was written, for local labels.
pub proof fn law_label(l: Seq<LocalPart>)
    requires
        l.len() > 0,
        forall|i: int| 0 <= i < l.len() ==> version::is_local_part(#[trigger] l[i]),
    ensures
        grammar::label_len(label_text(l)) == label_text(l).len(),
        grammar::local_parts(label_text(l)) == l,
        label_text(l).len() > 0,
{
    let ps = part_texts(l);
    let t = label_text(l);
    assert forall|i: int| 0 <= i < ps.len() implies (#[trigger] ps[i]).len() > 0 && text::all_in(
        Class::Label,
        ps[i],
    ) by {
        assert(version::is_local_part(l[i]));
        if let LocalPart::Number(n) = l[i] {
            text::lemma_decimal(n);
            assert(text::all_in(Class::Label, ps[i])) by {
                assert forall|j: int| 0 <= j < ps[i].len() implies text::in_class(
                    Class::Label,
                    #[trigger] ps[i][j],
                ) by {
                    assert(text::in_class(Class::Digit, ps[i][j]));
                }
            }
        }
    }
    assert(grammar::separators().contains('.')) by {
        assert(grammar::separators()[0] == '.');
    }
    let none = Seq::<char>::empty();
    grammar::lemma_list_join(Class::Label, grammar::separators(), ps, '.', none);
    assert(seq!['.'] =~= grammar::dot());
    assert(t + none =~= t);
    assert(grammar::local_parts(t) =~= l) by {
        assert forall|i: int| 0 <= i < l.len() implies grammar::local_part(ps[i]) == l[i] by {
            assert(version::is_local_part(l[i]));
            if let LocalPart::Number(n) = l[i] {
                text::lemma_decimal(n);
            }
        }
    }
    if ps.len() > 1 {
        assert(t.len() >= ps[0].len());
    }
}

proof fn lemma_render_parts(v: VersionSpec)
    ensures
        render(v) == epoch_text(v.epoch) + (release_text(v.release) + tail_pre(v)),
{
    let (e, r) = (epoch_text(v.epoch), release_text(v.release));
    let (p, q) = (pre_text(v.pre), post_text(v.post));
    let (d, l) = (dev_text(v.dev), local_text(v.local));
    assert(e + r + p + q + d + l =~= e + (r + (p + (q + (d + l)))));
}

proof fn lemma_epoch_shape(e: nat, t: Seq<char>)
    requires
        t.len() > 0,
        text::is_digit(t[0]),
        grammar::epoch_len(t) == 0,
    ensures
        ({
            let s = epoch_text(e) + t;
            &&& text::is_digit(s[0])
            &&& grammar::epoch_value(s) == e
            &&& text::after(s, grammar::epoch_len(s)) == t
        }),
{
    let s = epoch_text(e) + t;
    if e == 0 {
        assert(s =~= t);
        assert(text::after(s, 0) =~= s);
    } else {
        let d = text::decimal(e);
        text::lemma_decimal(e);
        let more = seq!['!'] + t;
        assert(s =~= d + more);
        text::lemma_run_concat(Class::Digit, d, more);
        assert(text::in_class(Class::Digit, d[0]));
        assert(s[0] == d[0]);
        assert(s[d.len() as int] == '!');
        assert(s[d.len() as int + 1] == t[0]);
        assert(grammar::epoch_len(s) == d.len() + 1);
        assert(s.take(d.len() as int) =~= d);
        assert(text::after(s, d.len() + 1) =~= t);
    }
}

proof fn lemma_read_epoch(v: VersionSpec)
    requires
        v.release.len() > 0,
    ensures
        ({
            let s = render(v);
            &&& s.len() > 0
            &&& text::is_digit(s[0])
            &&& grammar::v_len(s) == 0
            &&& text::after(s, 0) == s
            &&& grammar::epoch_value(s) == v.epoch
            &&& text::after(s, grammar::epoch_len(s)) == release_text(v.release) + tail_pre(v)
        }),
{
    lemma_render_parts(v);
    lemma_release_shape(v);
    lemma_epoch_shape(v.epoch, release_text(v.release) + tail_pre(v));
    assert(text::after(render(v), 0) =~= render(v));
}

proof fn lemma_read_local(v: VersionSpec)
    requires
        version::is_version(v),
    ensures
        grammar::local_len(tail_local(v)) == tail_local(v).len(),
        v.local is Some <==> tail_local(v).len() > 0,
        v.local matches Some(l) ==> grammar::local_parts(text::after(tail_local(v), 1)) == l,
{
    reveal_strlit("+");
    if let Some(l) = v.local {
        law_label(l);
        assert(text::after(tail_local(v), 1) =~= label_text(l));
    }
}

/// Reading the canonical text of a version gives the version back, with nothing left over.
#[verifier::rlimit(30)]
pub proof fn lemma_read_render(v: VersionSpec)
    requires
        version::is_version(v),
    ensures
        grammar::read_version(render(v)) == Some(v),
        render(v).len() > 0,
        text::is_digit(render(v)[0]),
{
    lemma_read_epoch(v);
    lemma_release_shape(v);
    lemma_read_pre(v);
    lemma_read_post(v);
    lemma_read_dev(v);
    lemma_read_local(v);
}

proof fn lemma_decimal_last(n: nat)
    ensures
        text::decimal(n).len() > 0,
        text::is_digit(text::decimal(n).last()),
{
    text::lemma_decimal(n);
    assert(text::in_class(Class::Digit, text::decimal(n)[text::decimal(n).len() - 1]));
}

proof fn lemma_public_last(v: VersionSpec)
    requires
        v.release.len() > 0,
    ensures
        public_text(v).len() > 0,
        text::is_digit(public_text(v).last()),
{
    let ds = decimals(v.release);
    lemma_decimal_last(v.release.last());
    assert(ds.last() == text::decimal(v.release.last()));
    text::lemma_join_last(ds, grammar::dot());
    let b = base_text(v);
    assert(b.last() == release_text(v.release).last());
    let p = b + pre_text(v.pre);
    if let Some((_, n)) = v.pre {
        lemma_decimal_last(n);
        assert(p.last() == text::decimal(n).last());
    } else {
        assert(p =~= b);
    }
    let q = p + post_text(v.post);
    if let Some(n) = v.post {
        lemma_decimal_last(n);
        assert(q.last() == text::decimal(n).last());
    } else {
        assert(q =~= p);
    }
    if let Some(n) = v.dev {
        lemma_decimal_last(n);
        assert(public_text(v).last() == text::decimal(n).last());
    } else {
        assert(public_text(v) =~= q);
    }
}

/// There is no white space around the canonical text of a version.
pub proof fn lemma_render_trim(v: VersionSpec)
    requires
        version::is_version(v),
    ensures
        text::trim(render(v)) == render(v),
{
    lemma_read_render(v);
    lemma_public_last(v);
    let s = render(v);
    if let Some(l) = v.local {
        law_label(l);
        let ps = part_texts(l);
        assert(version::is_local_part(l.last()));
        assert(ps.last() == part_text(l.last()));
        match l.last() {
            LocalPart::Number(n) => {
                lemma_decimal_last(n);
            },
            LocalPart::Text(t) => {
                assert(text::in_class(Class::Label, t[t.len() - 1]));
            },
        }
        text::lemma_join_last(ps, grammar::dot());
        assert(s.last() == label_text(l).last());
    } else {
        assert(s =~= public_text(v));
    }
    text::lemma_trim_none(s);
}

/// Reading back what was written: the canonical text of a version is a version, and the same
/// one. Writing it again gives the same text.
pub proof fn law_parse_render(v: VersionSpec)
    requires
        version::is_version(v),
        version::fits(v),
    ensures
        version::parse_version(render(v)) == Some(v),
{
    lemma_read_render(v);
    lemma_render_trim(v);
}

/// An epoch and a release are read back also where an epoch of zero is written out.
#[verifier::rlimit(30)]
pub proof fn lemma_full_epoch(v: VersionSpec)
    requires
        version::is_version(v),
        version::fits(v),
        v.pre is None,
        v.post is None,
        v.dev is None,
        v.local is None,
    ensures
        version::parse_version(text::decimal(v.epoch) + "!"@ + release_text(v.release)) == Some(v),
{
    reveal_strlit("!");
    let d = text::decimal(v.epoch);
    let t = release_text(v.release) + tail_pre(v);
    let s = d + "!"@ + release_text(v.release);
    lemma_release_shape(v);
    lemma_tail_shapes(v);
    assert(t =~= release_text(v.release));
    text::lemma_decimal(v.epoch);
    let more = seq!['!'] + t;
    assert(s =~= d + more);
    text::lemma_run_concat(Class::Digit, d, more);
    assert(text::in_class(Class::Digit, d[0]));
    assert(s[0] == d[0]);
    assert(s[d.len() as int] == '!');
    assert(s[d.len() as int + 1] == t[0]);
    assert(text::after(s, 0) =~= s);
    assert(grammar::epoch_len(s) == d.len() + 1);
    assert(s.take(d.len() as int) =~= d);
    assert(text::after(s, d.len() + 1) =~= t);
    lemma_read_pre(v);
    lemma_read_post(v);
    lemma_read_dev(v);
    lemma_read_local(v);
    lemma_public_last(v);
    assert(public_text(v).last() == t.last()) by {
        assert(public_text(v) =~= epoch_text(v.epoch) + t);
    }
    assert(s.last() == t.last());
    text::lemma_trim_none(s);
}

/// The text of a version without its local label says that version without its local label,
/// and so does the text of its epoch and release for these two.
pub proof fn law_public_text(v: VersionSpec)
    requires
        version::is_version(v),
        version::fits(v),
    ensures
        version::parse_version(public_text(v)) == Some(VersionSpec { local: None, ..v }),
        version::parse_version(base_text(v)) == Some(
            VersionSpec { pre: None, post: None, dev: None, local: None, ..v },
        ),
{
    let p = VersionSpec { local: None, ..v };
    let b = VersionSpec { pre: None, post: None, dev: None, local: None, ..v };
    law_parse_render(p);
    law_parse_render(b);
    assert(render(p) =~= public_text(v));
    assert(render(b) =~= base_text(v));
}

} // verus!
