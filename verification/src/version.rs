//! Versions: parsing, order, canonical text and construction from parts.

use std::cmp::Ordering;
use std::hash::{Hash, Hasher};
use std::str::FromStr;

use vstd::prelude::*;
use vstd::slice::slice_subrange;

use crate::canonical;
use crate::chars;
use crate::grammar::{self, LocalPart, PreLetter, VersionSpec};
use crate::order::{self, Sign};
use crate::outside;
use crate::ranking;
use crate::scan;
use crate::text::{self, Class};

verus! {

/// One segment of a local version label (the part after `+`).
#[derive(Debug, PartialEq, Eq)]
pub enum LocalSegment {
    /// An all-digit segment, such as the `1` in `+ubuntu.1`.
    Number(u64),
    /// Any other segment, in lower case, such as the `ubuntu` in `+ubuntu.1`.
    String(String),
}

impl View for LocalSegment {
    type V = LocalPart;

    open spec fn view(&self) -> LocalPart {
        match self {
            LocalSegment::Number(n) => LocalPart::Number(*n as nat),
            LocalSegment::String(s) => LocalPart::Text(s@),
        }
    }
}

impl Clone for LocalSegment {
    fn clone(&self) -> (r: LocalSegment)
        ensures
            r == *self,
    {
        match self {
            LocalSegment::Number(n) => LocalSegment::Number(*n),
            LocalSegment::String(s) => LocalSegment::String(s.clone()),
        }
    }
}

/// Numbers of the machine as numbers.
pub open spec fn nats(s: Seq<u64>) -> Seq<nat> {
    s.map_values(|n: u64| n as nat)
}

/// The segments of a local label as what they say.
pub open spec fn parts(s: Seq<LocalSegment>) -> Seq<LocalPart> {
    s.map_values(|p: LocalSegment| p@)
}

/// An optional number of the machine as a number.
pub open spec fn opt_nat(n: Option<u64>) -> Option<nat> {
    match n {
        Some(k) => Some(k as nat),
        None => None,
    }
}

/// A pre-release segment as what it says.
pub open spec fn opt_pre(p: Option<(PreLetter, u64)>) -> Option<(PreLetter, nat)> {
    match p {
        Some((l, k)) => Some((l, k as nat)),
        None => None,
    }
}

/// A text that a segment of a local label can hold: letters in lower case and digits, not
/// digits alone.
pub open spec fn is_label_text(t: Seq<char>) -> bool {
    &&& t.len() > 0
    &&& text::all_in(Class::Label, t)
    &&& text::lower_text(t) == t
    &&& !text::all_in(Class::Digit, t)
}

/// Whether one segment of a local label is in canonical form.
pub open spec fn is_local_part(p: LocalPart) -> bool {
    match p {
        LocalPart::Number(_) => true,
        LocalPart::Text(t) => is_label_text(t),
    }
}

/// What holds of every version: it has a release, and a local label is not empty and is made
/// of canonical segments.
pub open spec fn is_version(v: VersionSpec) -> bool {
    &&& v.release.len() > 0
    &&& v.local matches Some(l) ==> l.len() > 0 && forall|i: int|
        0 <= i < l.len() ==> is_local_part(#[trigger] l[i])
}

/// Whether a number fits the machine.
pub open spec fn small(n: nat) -> bool {
    n <= u64::MAX
}

/// Whether all numbers of a release fit the machine.
pub open spec fn small_release(l: Seq<nat>) -> bool {
    forall|i: int| 0 <= i < l.len() ==> small(#[trigger] l[i])
}

/// Whether the number in a segment of a local label fits the machine.
pub open spec fn small_part(p: LocalPart) -> bool {
    p matches LocalPart::Number(n) ==> small(n)
}

/// Whether all numbers of a local label fit the machine.
pub open spec fn small_local(l: Seq<LocalPart>) -> bool {
    forall|i: int| 0 <= i < l.len() ==> small_part(#[trigger] l[i])
}

/// Whether all numbers of a version fit the machine.
pub open spec fn fits(v: VersionSpec) -> bool {
    &&& small(v.epoch)
    &&& small_release(v.release)
    &&& v.pre matches Some((_, n)) ==> small(n)
    &&& v.post matches Some(n) ==> small(n)
    &&& v.dev matches Some(n) ==> small(n)
    &&& v.local matches Some(l) ==> small_local(l)
}

/// What a text says as a version, with white space around it left out. Nothing where the text
/// is not a version, or where one of its numbers is beyond 64 bits.
pub open spec fn parse_version(s: Seq<char>) -> Option<VersionSpec> {
    match grammar::read_version(text::trim(s)) {
        Some(v) => if fits(v) {
            Some(v)
        } else {
            None
        },
        None => None,
    }
}

/// A parsed version.
///
/// Example: `1!2.3.4a5.post6.dev7+ubuntu.1` has epoch 1, release 2.3.4, the fifth alpha
/// pre-release, post-release 6, development release 7 and the local label `ubuntu.1`.
#[derive(Debug)]
pub struct Version {
    /// The number before `!`; zero where there is none.
    epoch: u64,
    /// The numbers of the release; never empty.
    release: Vec<u64>,
    /// The letter and number of a pre-release.
    pre: Option<(PreLetter, u64)>,
    /// The number of a post-release.
    post: Option<u64>,
    /// The number of a development release.
    dev: Option<u64>,
    /// The segments of the local label.
    local: Option<Vec<LocalSegment>>,
}

impl View for Version {
    type V = VersionSpec;

    closed spec fn view(&self) -> VersionSpec {
        VersionSpec {
            epoch: self.epoch as nat,
            release: nats(self.release@),
            pre: opt_pre(self.pre),
            post: opt_nat(self.post),
            dev: opt_nat(self.dev),
            local: match self.local {
                Some(l) => Some(parts(l@)),
                None => None,
            },
        }
    }
}

/// The error of a text that is not a version. Holds the text, or what is wrong with the parts.
#[derive(Debug, Clone, PartialEq, Eq)]
pub struct InvalidVersion(pub String);

impl InvalidVersion {
    /// The message of this error.
    pub fn to_string(&self) -> (r: String)
        ensures
            r@ == "Invalid version: '"@ + self.0@ + "'"@,
    {
        let mut out = chars::copy("Invalid version: '");
        out.push_str(&self.0);
        out.push_str("'");
        out
    }
}

// --- Parsing. ---

proof fn lemma_lower_label(c: char)
    requires
        text::in_class(Class::Label, c),
    ensures
        text::in_class(Class::Label, text::lower(c)),
        text::lower(text::lower(c)) == text::lower(c),
        text::is_digit(text::lower(c)) ==> text::is_digit(c),
{
}

/// A segment of letters and digits is in canonical form once its letters are in lower case.
proof fn lemma_local_part(s: Seq<char>)
    requires
        s.len() > 0,
        text::all_in(Class::Label, s),
    ensures
        is_local_part(grammar::local_part(s)),
{
    if !text::all_in(Class::Digit, s) {
        let t = text::lower_text(s);
        assert forall|i: int| 0 <= i < t.len() implies text::in_class(
            Class::Label,
            #[trigger] t[i],
        ) by {
            assert(text::in_class(Class::Label, s[i]));
            lemma_lower_label(s[i]);
        }
        assert(text::lower_text(t) =~= t) by {
            assert forall|i: int| 0 <= i < t.len() implies text::lower(#[trigger] t[i]) == t[i] by {
                assert(text::in_class(Class::Label, s[i]));
                lemma_lower_label(s[i]);
            }
        }
        let i = choose|i: int| 0 <= i < s.len() && !text::in_class(Class::Digit, #[trigger] s[i]);
        assert(text::in_class(Class::Label, s[i]));
        lemma_lower_label(s[i]);
        assert(!text::in_class(Class::Digit, t[i]));
    }
}

/// The segments of a local label. Nothing where one of its numbers is beyond 64 bits.
fn parse_local(s: &[char]) -> (r: Option<Vec<LocalSegment>>)
    requires
        s@.len() > 0,
        grammar::label_len(s@) == s@.len(),
    ensures
        match r {
            Some(l) => parts(l@) == grammar::local_parts(s@) && small_local(parts(l@)),
            None => !small_local(grammar::local_parts(s@)),
        },
{
    let marks = ['.', '_', '-'];
    assert(marks@ =~= grammar::separators());
    let pieces = chars::split(s, &marks);
    let mut out: Vec<LocalSegment> = Vec::new();
    let mut i: usize = 0;
    let ghost texts = text::split(s@, grammar::separators());
    while i < pieces.len()
        invariant
            i <= pieces@.len(),
            chars::views(pieces@) == texts,
            texts == text::split(s@, grammar::separators()),
            out@.len() == i,
            forall|j: int|
                0 <= j < i ==> (#[trigger] out@[j])@ == grammar::local_part(texts[j]) && small_part(
                    out@[j]@,
                ),
        decreases pieces@.len() - i,
    {
        let piece = pieces[i];
        assert(piece@ == texts[i as int]);
        if piece.len() > 0 && chars::all_in(&Class::Digit, piece) {
            match chars::number(piece) {
                Some(n) => {
                    out.push(LocalSegment::Number(n));
                },
                None => {
                    assert(grammar::local_parts(s@)[i as int] == grammar::local_part(
                        texts[i as int],
                    ));
                    return None;
                },
            }
        } else {
            let low = chars::lower_text(piece);
            out.push(LocalSegment::String(chars::string_of(&low)));
        }
        i += 1;
    }
    assert(parts(out@) =~= grammar::local_parts(s@));
    assert forall|j: int| 0 <= j < parts(out@).len() implies small_part(
        #[trigger] parts(out@)[j],
    ) by {
        assert(parts(out@)[j] == out@[j]@);
    }
    Some(out)
}

/// The numbers of a release. Nothing where one of them is beyond 64 bits.
fn parse_release(s: &[char]) -> (r: Option<Vec<u64>>)
    requires
        s@.len() > 0,
        grammar::release_len(s@) == s@.len(),
    ensures
        match r {
            Some(l) => nats(l@) == grammar::release_numbers(s@) && l@.len() > 0,
            None => !small_release(grammar::release_numbers(s@)),
        },
{
    let marks = ['.'];
    assert(marks@ =~= grammar::dot());
    let pieces = chars::split(s, &marks);
    let mut out: Vec<u64> = Vec::new();
    let mut i: usize = 0;
    let ghost texts = text::split(s@, grammar::dot());
    proof {
        grammar::lemma_list_split(Class::Digit, grammar::dot(), s@);
    }
    while i < pieces.len()
        invariant
            i <= pieces@.len(),
            chars::views(pieces@) == texts,
            texts == text::split(s@, grammar::dot()),
            forall|j: int|
                0 <= j < texts.len() ==> (#[trigger] texts[j]).len() > 0 && text::all_in(
                    Class::Digit,
                    texts[j],
                ),
            out@.len() == i,
            forall|j: int| 0 <= j < i ==> #[trigger] out@[j] == text::number(texts[j]),
        decreases pieces@.len() - i,
    {
        let piece = pieces[i];
        assert(piece@ == texts[i as int]);
        match chars::number(piece) {
            Some(n) => {
                out.push(n);
            },
            None => {
                assert(grammar::release_numbers(s@)[i as int] == text::number(texts[i as int]));
                return None;
            },
        }
        i += 1;
    }
    assert(nats(out@) =~= grammar::release_numbers(s@));
    Some(out)
}

/// A number that was written with optional digits.
fn digits_number(s: &[char], seg: &scan::Segment) -> (r: Option<u64>)
    requires
        seg.digits <= seg.len <= s@.len(),
        text::all_in(Class::Digit, s@.subrange(seg.len - seg.digits, seg.len as int)),
    ensures
        match r {
            Some(n) => n == text::number(s@.subrange(seg.len - seg.digits, seg.len as int)),
            None => !small(text::number(s@.subrange(seg.len - seg.digits, seg.len as int))),
        },
{
    chars::number(slice_subrange(s, seg.len - seg.digits, seg.len))
}

/// The epoch at the head of a text: its length and its number.
fn read_epoch(s: &[char]) -> (r: Option<(usize, u64)>)
    ensures
        match r {
            Some((n, e)) => n == grammar::epoch_len(s@) && n <= s@.len() && e
                == grammar::epoch_value(s@),
            None => !small(grammar::epoch_value(s@)),
        },
{
    let n: usize = scan::epoch_len(s);
    if n == 0 {
        return Some((0, 0));
    }
    let digits = chars::take(s, n - 1);
    proof {
        text::lemma_run_all(Class::Digit, s@);
    }
    match chars::number(digits) {
        Some(e) => Some((n, e)),
        None => None,
    }
}

/// The pre-release at the head of a text: its length, and its letter and number.
fn read_pre(s: &[char]) -> (r: Option<(usize, Option<(PreLetter, u64)>)>)
    ensures
        match r {
            Some((n, p)) => n == grammar::pre_len(s@) && n <= s@.len() && opt_pre(p)
                == grammar::pre_value(s@),
            None => grammar::pre_value(s@) matches Some((_, n)) && !small(n),
        },
{
    let sep: usize = scan::separator_len(s);
    match scan::pre_word(chars::skip(s, sep)) {
        Some((letter, word)) => {
            let seg = scan::segment(s, word);
            match digits_number(s, &seg) {
                Some(n) => Some((seg.len, Some((letter, n)))),
                None => None,
            }
        },
        None => Some((0, None)),
    }
}

/// The post-release at the head of a text: its length and its number.
fn read_post(s: &[char]) -> (r: Option<(usize, Option<u64>)>)
    ensures
        match r {
            Some((n, p)) => n == grammar::post_len(s@) && n <= s@.len() && opt_nat(p)
                == grammar::post_value(s@),
            None => grammar::post_value(s@) matches Some(n) && !small(n),
        },
{
    if s.len() >= 2 && s[0] == '-' && chars::is_digit(s[1]) {
        let rest = chars::skip(s, 1);
        let n: usize = chars::run(&Class::Digit, rest);
        let digits = chars::take(rest, n);
        proof {
            text::lemma_run_all(Class::Digit, rest@);
        }
        return match chars::number(digits) {
            Some(k) => Some((1 + n, Some(k))),
            None => None,
        };
    }
    let sep: usize = scan::separator_len(s);
    let word: usize = scan::post_word(chars::skip(s, sep));
    if word == 0 {
        return Some((0, None));
    }
    let seg = scan::segment(s, word);
    match digits_number(s, &seg) {
        Some(n) => Some((seg.len, Some(n))),
        None => None,
    }
}

/// The development release at the head of a text: its length and its number.
fn read_dev(s: &[char]) -> (r: Option<(usize, Option<u64>)>)
    ensures
        match r {
            Some((n, p)) => n == grammar::dev_len(s@) && n <= s@.len() && opt_nat(p)
                == grammar::dev_value(s@),
            None => grammar::dev_value(s@) matches Some(n) && !small(n),
        },
{
    let sep: usize = scan::separator_len(s);
    let word: usize = scan::dev_word(chars::skip(s, sep));
    if word == 0 {
        return Some((0, None));
    }
    let seg = scan::segment(s, word);
    match digits_number(s, &seg) {
        Some(n) => Some((seg.len, Some(n))),
        None => None,
    }
}

/// A local label is made of canonical segments.
proof fn lemma_label_parts(s: Seq<char>)
    requires
        s.len() > 0,
        grammar::label_len(s) == s.len(),
    ensures
        grammar::local_parts(s).len() > 0,
        forall|i: int|
            0 <= i < grammar::local_parts(s).len() ==> is_local_part(
                #[trigger] grammar::local_parts(s)[i],
            ),
{
    let texts = text::split(s, grammar::separators());
    grammar::lemma_list_split(Class::Label, grammar::separators(), s);
    assert forall|i: int| 0 <= i < grammar::local_parts(s).len() implies is_local_part(
        #[trigger] grammar::local_parts(s)[i],
    ) by {
        assert(texts[i].len() > 0);
        lemma_local_part(texts[i]);
    }
}

impl Version {
    /// What holds of every version.
    #[verifier::type_invariant]
    spec fn well_formed(self) -> bool {
        is_version(self@) && fits(self@)
    }

    /// The version that the whole of a text says.
    fn read(s: &[char]) -> (r: Option<Version>)
        ensures
            match r {
                Some(v) => grammar::read_version(s@) == Some(v@) && fits(v@),
                None => match grammar::read_version(s@) {
                    Some(v) => !fits(v),
                    None => true,
                },
            },
    {
        let s1 = chars::skip(s, scan::v_len(s));
        let (n1, epoch) = match read_epoch(s1) {
            Some(e) => e,
            None => return None,
        };
        let s2 = chars::skip(s1, n1);
        let n2: usize = scan::release_len(s2);
        if n2 == 0 {
            return None;
        }
        proof {
            grammar::lemma_list_head(Class::Digit, grammar::dot(), s2@);
        }
        let release = match parse_release(chars::take(s2, n2)) {
            Some(l) => l,
            None => return None,
        };
        let s3 = chars::skip(s2, n2);
        let (n3, pre) = match read_pre(s3) {
            Some(p) => p,
            None => return None,
        };
        let s4 = chars::skip(s3, n3);
        let (n4, post) = match read_post(s4) {
            Some(p) => p,
            None => return None,
        };
        let s5 = chars::skip(s4, n4);
        let (n5, dev) = match read_dev(s5) {
            Some(p) => p,
            None => return None,
        };
        let s6 = chars::skip(s5, n5);
        if scan::local_len(s6) != s6.len() {
            return None;
        }
        let local = if s6.len() == 0 {
            None
        } else {
            let label = chars::skip(s6, 1);
            proof {
                lemma_label_parts(label@);
            }
            match parse_local(label) {
                Some(l) => Some(l),
                None => return None,
            }
        };
        assert forall|i: int| 0 <= i < release@.len() implies small(
            #[trigger] nats(release@)[i],
        ) by {}
        Some(Version { epoch, release, pre, post, dev, local })
    }

    /// Reads a version. White space around it does not matter, and letters may be in either
    /// case.
    pub fn parse(version: &str) -> (r: Result<Version, InvalidVersion>)
        ensures
            match r {
                Ok(v) => parse_version(version@) == Some(v@) && is_version(v@) && fits(v@),
                Err(e) => parse_version(version@) is None && e.0@ == version@,
            },
    {
        let cs = chars::chars_of(version);
        match Version::read(chars::trim(&cs)) {
            Some(v) => {
                proof {
                    use_type_invariant(&v);
                }
                Ok(v)
            },
            None => Err(InvalidVersion(chars::copy(version))),
        }
    }
}

/// What a text says as a version is in canonical form.
pub proof fn lemma_parse_valid(s: Seq<char>)
    ensures
        parse_version(s) matches Some(v) ==> is_version(v) && fits(v),
{
    if let Some(v) = parse_version(s) {
        let s0 = text::trim(s);
        let s1 = text::after(s0, grammar::v_len(s0));
        let s2 = text::after(s1, grammar::epoch_len(s1));
        let s3 = text::after(s2, grammar::release_len(s2));
        let s4 = text::after(s3, grammar::pre_len(s3));
        let s5 = text::after(s4, grammar::post_len(s4));
        let s6 = text::after(s5, grammar::dev_len(s5));
        grammar::lemma_list_head(Class::Digit, grammar::dot(), s2);
        grammar::lemma_list_split(
            Class::Digit,
            grammar::dot(),
            text::head(s2, grammar::release_len(s2)),
        );
        if s6.len() > 0 {
            lemma_label_parts(text::after(s6, 1));
        }
    }
}

/// Parsing and writing: a text that says a version says the same as the canonical text of that
/// version.
pub proof fn law_canonical_text(s: Seq<char>)
    requires
        parse_version(s) is Some,
    ensures
        parse_version(canonical::render(parse_version(s).unwrap())) == parse_version(s),
{
    lemma_parse_valid(s);
    canonical::law_parse_render(parse_version(s).unwrap());
}

// --- Canonical text. ---

/// Appends the numbers of a release.
fn push_release(out: &mut String, release: &[u64])
    ensures
        final(out)@ == old(out)@ + canonical::release_text(nats(release@)),
{
    let ghost all = canonical::decimals(nats(release@));
    let mut i: usize = 0;
    assert(out@ =~= old(out)@ + text::join(all.take(0), grammar::dot()));
    while i < release.len()
        invariant
            i <= release@.len(),
            all == canonical::decimals(nats(release@)),
            out@ == old(out)@ + text::join(all.take(i as int), grammar::dot()),
        decreases release@.len() - i,
    {
        if i > 0 {
            out.push('.');
        }
        chars::push_number(out, release[i]);
        proof {
            let p = text::decimal(release@[i as int] as nat);
            assert(all[i as int] == p);
            assert(all.take(i + 1) =~= all.take(i as int).push(p));
            if i > 0 {
                text::lemma_join_push(all.take(i as int), p, grammar::dot());
            } else {
                assert(text::join(all.take(1), grammar::dot()) == p);
            }
            assert(out@ =~= old(out)@ + text::join(all.take(i + 1), grammar::dot()));
        }
        i += 1;
    }
    assert(all.take(i as int) =~= all);
}

/// Appends the segments of a local label.
fn push_local(out: &mut String, segments: &[LocalSegment])
    ensures
        final(out)@ == old(out)@ + canonical::label_text(parts(segments@)),
{
    let ghost all = canonical::part_texts(parts(segments@));
    let mut i: usize = 0;
    assert(out@ =~= old(out)@ + text::join(all.take(0), grammar::dot()));
    while i < segments.len()
        invariant
            i <= segments@.len(),
            all == canonical::part_texts(parts(segments@)),
            out@ == old(out)@ + text::join(all.take(i as int), grammar::dot()),
        decreases segments@.len() - i,
    {
        if i > 0 {
            out.push('.');
        }
        match &segments[i] {
            LocalSegment::Number(n) => {
                chars::push_number(out, *n);
            },
            LocalSegment::String(t) => {
                out.push_str(t);
            },
        }
        proof {
            let p = canonical::part_text(segments@[i as int]@);
            assert(all[i as int] == p);
            assert(all.take(i + 1) =~= all.take(i as int).push(p));
            if i > 0 {
                text::lemma_join_push(all.take(i as int), p, grammar::dot());
            } else {
                assert(text::join(all.take(1), grammar::dot()) == p);
            }
            assert(out@ =~= old(out)@ + text::join(all.take(i + 1), grammar::dot()));
        }
        i += 1;
    }
    assert(all.take(i as int) =~= all);
}

impl Version {
    /// Appends the epoch and a release.
    fn push_base(&self, out: &mut String, release: &[u64])
        ensures
            final(out)@ == old(out)@ + canonical::base_text(
                (VersionSpec { release: nats(release@), ..self@ }),
            ),
    {
        if self.epoch != 0 {
            chars::push_number(out, self.epoch);
            out.push('!');
        }
        push_release(out, release);
        assert(out@ =~= old(out)@ + canonical::base_text(
            VersionSpec { release: nats(release@), ..self@ },
        ));
    }

    /// Appends all but the local label, with a release of its own.
    fn push_public(&self, out: &mut String, release: &[u64])
        ensures
            final(out)@ == old(out)@ + canonical::public_text(
                (VersionSpec { release: nats(release@), ..self@ }),
            ),
    {
        self.push_base(out, release);
        if let Some((letter, n)) = self.pre {
            out.push_str(letter.as_str());
            chars::push_number(out, n);
        }
        if let Some(n) = self.post {
            out.push_str(".post");
            chars::push_number(out, n);
        }
        if let Some(n) = self.dev {
            out.push_str(".dev");
            chars::push_number(out, n);
        }
        assert(out@ =~= old(out)@ + canonical::public_text(
            VersionSpec { release: nats(release@), ..self@ },
        ));
    }

    /// The canonical text with a release of its own.
    fn render_with(&self, release: &[u64]) -> (r: String)
        ensures
            r@ == canonical::render((VersionSpec { release: nats(release@), ..self@ })),
    {
        let mut out = String::new();
        self.push_public(&mut out, release);
        if let Some(segments) = &self.local {
            out.push_str("+");
            push_local(&mut out, segments);
        }
        assert(out@ =~= canonical::render(VersionSpec { release: nats(release@), ..self@ }));
        out
    }

    /// The canonical text. Spellings of one thing become one, and local labels are in lower
    /// case with dots between their segments; zeros at the end of the release are kept.
    pub fn to_string(&self) -> (r: String)
        ensures
            r@ == canonical::render(self@),
    {
        self.render_with(&self.release)
    }

    /// The canonical text, with or without the zeros at the end of the release.
    pub fn canonical(&self, strip_trailing_zero: bool) -> (r: String)
        ensures
            r@ == canonical::canonical_text(self@, strip_trailing_zero),
    {
        if strip_trailing_zero {
            self.render_with(&self.release_trimmed())
        } else {
            self.to_string()
        }
    }

    // --- Accessors. ---

    /// The epoch, zero where there is none.
    pub fn epoch(&self) -> (r: u64)
        ensures
            r == self@.epoch,
    {
        self.epoch
    }

    /// The numbers of the release.
    pub fn release(&self) -> (r: &[u64])
        ensures
            nats(r@) == self@.release,
            r@.len() > 0,
    {
        proof {
            use_type_invariant(self);
        }
        &self.release
    }

    /// The letter and number of a pre-release.
    pub fn pre(&self) -> (r: Option<(PreLetter, u64)>)
        ensures
            opt_pre(r) == self@.pre,
    {
        self.pre
    }

    /// The number of a post-release.
    pub fn post(&self) -> (r: Option<u64>)
        ensures
            opt_nat(r) == self@.post,
    {
        self.post
    }

    /// The number of a development release.
    pub fn dev(&self) -> (r: Option<u64>)
        ensures
            opt_nat(r) == self@.dev,
    {
        self.dev
    }

    /// The segments of the local label.
    pub fn local_segments(&self) -> (r: Option<&[LocalSegment]>)
        ensures
            match r {
                Some(l) => self@.local == Some(parts(l@)),
                None => self@.local is None,
            },
    {
        match &self.local {
            Some(l) => Some(l),
            None => None,
        }
    }

    /// The local label in canonical form.
    pub fn local(&self) -> (r: Option<String>)
        ensures
            match r {
                Some(t) => canonical::opt_label(self@.local) == Some(t@),
                None => self@.local is None,
            },
    {
        match &self.local {
            Some(l) => {
                let mut out = String::new();
                push_local(&mut out, l);
                assert(out@ =~= canonical::label_text(parts(l@)));
                Some(out)
            },
            None => None,
        }
    }

    /// The canonical text without the local label.
    pub fn public(&self) -> (r: String)
        ensures
            r@ == canonical::public_text(self@),
    {
        let mut out = String::new();
        self.push_public(&mut out, &self.release);
        assert(out@ =~= canonical::public_text(self@));
        out
    }

    /// The epoch and the release, in canonical form.
    pub fn base_version(&self) -> (r: String)
        ensures
            r@ == canonical::base_text(self@),
    {
        let mut out = String::new();
        self.push_base(&mut out, &self.release);
        assert(out@ =~= canonical::base_text(self@));
        out
    }

    /// Whether this is a pre-release or a development release.
    pub fn is_prerelease(&self) -> (r: bool)
        ensures
            r == is_prerelease(self@),
    {
        self.dev.is_some() || self.pre.is_some()
    }

    /// Whether this is a post-release.
    pub fn is_postrelease(&self) -> (r: bool)
        ensures
            r == (self@.post is Some),
    {
        self.post.is_some()
    }

    /// Whether this is a development release.
    pub fn is_devrelease(&self) -> (r: bool)
        ensures
            r == (self@.dev is Some),
    {
        self.dev.is_some()
    }

    /// A number of the release, zero where there is none.
    fn component(&self, i: usize) -> (r: u64)
        ensures
            r == component(self@.release, i as int),
    {
        if i < self.release.len() {
            self.release[i]
        } else {
            0
        }
    }

    /// The first number of the release.
    pub fn major(&self) -> (r: u64)
        ensures
            r == component(self@.release, 0),
    {
        self.component(0)
    }

    /// The second number of the release, zero where there is none.
    pub fn minor(&self) -> (r: u64)
        ensures
            r == component(self@.release, 1),
    {
        self.component(1)
    }

    /// The third number of the release, zero where there is none.
    pub fn micro(&self) -> (r: u64)
        ensures
            r == component(self@.release, 2),
    {
        self.component(2)
    }

    /// The release without the zeros at its end, except that its first number always stays.
    pub fn release_trimmed(&self) -> (r: Vec<u64>)
        ensures
            nats(r@) == trim_keeping_one(self@.release),
    {
        proof {
            use_type_invariant(self);
        }
        let n: usize = trimmed_len(&self.release);
        let end: usize = if n == 0 {
            1
        } else {
            n
        };
        let r = copy_numbers(slice_subrange(self.release.as_slice(), 0, end));
        assert(nats(r@) =~= trim_keeping_one(self@.release)) by {
            lemma_trim_prefix(self@.release);
        }
        r
    }
}

/// Whether a version is a pre-release or a development release.
pub open spec fn is_prerelease(v: VersionSpec) -> bool {
    v.dev is Some || v.pre is Some
}

/// A number of a release, zero where there is none.
pub open spec fn component(r: Seq<nat>, i: int) -> nat {
    if 0 <= i < r.len() {
        r[i]
    } else {
        0
    }
}

/// A release without the zeros at its end, except that its first number always stays.
pub open spec fn trim_keeping_one(r: Seq<nat>) -> Seq<nat> {
    if ranking::trim_release(r).len() == 0 {
        r.take(1)
    } else {
        ranking::trim_release(r)
    }
}

/// A release without the zeros at its end is a head of the release.
proof fn lemma_trim_prefix(r: Seq<nat>)
    ensures
        ranking::trim_release(r).len() <= r.len(),
        ranking::trim_release(r) == r.take(ranking::trim_release(r).len() as int),
    decreases r.len(),
{
    if r.len() > 0 && r.last() == 0 {
        lemma_trim_prefix(r.drop_last());
        assert(ranking::trim_release(r) =~= r.take(ranking::trim_release(r).len() as int));
    } else {
        assert(r =~= r.take(r.len() as int));
    }
}

/// Trimming a release that keeps its first number: it is a head of the release, with the same
/// numbers once all zeros at the end are left out. Where those leave nothing it is a zero.
pub proof fn lemma_trim_keeping_one(r: Seq<nat>)
    requires
        r.len() > 0,
    ensures
        0 < trim_keeping_one(r).len() <= r.len(),
        trim_keeping_one(r) == r.take(trim_keeping_one(r).len() as int),
        ranking::trim_release(trim_keeping_one(r)) == ranking::trim_release(r),
        trim_keeping_one(trim_keeping_one(r)) == trim_keeping_one(r),
        ranking::trim_release(r).len() == 0 ==> trim_keeping_one(r) == seq![0nat],
{
    lemma_trim_prefix(r);
    lemma_trim_twice(r);
    if ranking::trim_release(r).len() == 0 {
        lemma_trim_zero(r, 0);
        let t = r.take(1);
        assert(t =~= seq![0nat]);
        assert(t.drop_last() =~= Seq::<nat>::empty());
        assert(ranking::trim_release(t) == ranking::trim_release(Seq::<nat>::empty()));
        assert(t.take(1) =~= t);
        assert(ranking::trim_release(r) =~= Seq::<nat>::empty());
    }
}

proof fn lemma_trim_twice(r: Seq<nat>)
    ensures
        ranking::trim_release(ranking::trim_release(r)) == ranking::trim_release(r),
    decreases r.len(),
{
    if r.len() > 0 && r.last() == 0 {
        lemma_trim_twice(r.drop_last());
    }
}

/// A release that leaves nothing without the zeros at its end is made of zeros.
proof fn lemma_trim_zero(r: Seq<nat>, i: int)
    requires
        ranking::trim_release(r).len() == 0,
        0 <= i < r.len(),
    ensures
        r[i] == 0,
    decreases r.len(),
{
    if i < r.len() - 1 {
        lemma_trim_zero(r.drop_last(), i);
    }
}

/// How many numbers of a release are left without the zeros at its end.
fn trimmed_len(release: &[u64]) -> (r: usize)
    ensures
        r <= release@.len(),
        r == ranking::trim_release(nats(release@)).len(),
        nats(release@).take(r as int) == ranking::trim_release(nats(release@)),
{
    let mut end: usize = release.len();
    assert(nats(release@).take(end as int) =~= nats(release@));
    while end > 0 && release[end - 1] == 0
        invariant
            end <= release@.len(),
            ranking::trim_release(nats(release@)) == ranking::trim_release(
                nats(release@).take(end as int),
            ),
        decreases end,
    {
        assert(nats(release@).take(end as int).drop_last() =~= nats(release@).take(end - 1));
        end -= 1;
    }
    end
}

/// A copy of numbers.
fn copy_numbers(s: &[u64]) -> (r: Vec<u64>)
    ensures
        r@ == s@,
{
    let mut out: Vec<u64> = Vec::new();
    let mut i: usize = 0;
    while i < s.len()
        invariant
            i <= s@.len(),
            out@ == s@.take(i as int),
        decreases s@.len() - i,
    {
        out.push(s[i]);
        i += 1;
        assert(out@ =~= s@.take(i as int));
    }
    assert(s@.take(i as int) =~= s@);
    out
}

// --- Construction from parts. ---

/// The parts of a [`Version`], for building one without a text.
#[derive(Debug, Clone, PartialEq, Eq)]
pub struct VersionParts {
    /// The epoch.
    pub epoch: u64,
    /// The numbers of the release; a version needs at least one.
    pub release: Vec<u64>,
    /// The letter and number of a pre-release.
    pub pre: Option<(PreLetter, u64)>,
    /// The number of a post-release.
    pub post: Option<u64>,
    /// The number of a development release.
    pub dev: Option<u64>,
    /// A local label, such as `ubuntu.1`.
    pub local: Option<String>,
}

impl Default for VersionParts {
    fn default() -> (r: VersionParts)
        ensures
            r.epoch == 0,
            r.release@.len() == 0,
            r.pre is None,
            r.post is None,
            r.dev is None,
            r.local is None,
    {
        VersionParts {
            epoch: 0,
            release: Vec::new(),
            pre: None,
            post: None,
            dev: None,
            local: None,
        }
    }
}

/// Whether a text is a local label, with numbers that fit the machine.
pub open spec fn is_label(s: Seq<char>) -> bool {
    s.len() > 0 && grammar::label_len(s) == s.len() && small_local(grammar::local_parts(s))
}

/// What the label of some parts says.
pub open spec fn label_parts(l: Option<String>) -> Option<Seq<LocalPart>> {
    match l {
        Some(s) => Some(grammar::local_parts(s@)),
        None => None,
    }
}

/// What is wrong with parts that do not make a version.
pub open spec fn parts_error(p: VersionParts) -> Option<Seq<char>> {
    if p.release@.len() == 0 {
        Some("release must be a non-empty list of components"@)
    } else {
        match p.local {
            Some(s) => if is_label(s@) {
                None
            } else {
                Some("invalid local label: "@ + outside::quoted(s@))
            },
            None => None,
        }
    }
}

/// What parts say as a version.
pub open spec fn parts_version(p: VersionParts) -> VersionSpec {
    VersionSpec {
        epoch: p.epoch as nat,
        release: nats(p.release@),
        pre: opt_pre(p.pre),
        post: opt_nat(p.post),
        dev: opt_nat(p.dev),
        local: label_parts(p.local),
    }
}

impl Version {
    /// Builds a version from its parts.
    pub fn from_parts(parts: VersionParts) -> (r: Result<Version, InvalidVersion>)
        ensures
            match r {
                Ok(v) => parts_error(parts) is None && v@ == parts_version(parts),
                Err(e) => parts_error(parts) == Some(e.0@),
            },
    {
        if parts.release.len() == 0 {
            return Err(
                InvalidVersion(chars::copy("release must be a non-empty list of components")),
            );
        }
        let local = match &parts.local {
            Some(s) => {
                let label = chars::chars_of(s);
                let segments = if label.len() > 0 && scan::label_len(&label) == label.len() {
                    proof {
                        lemma_label_parts(label@);
                    }
                    parse_local(&label)
                } else {
                    None
                };
                match segments {
                    Some(l) => Some(l),
                    None => {
                        let mut message = chars::copy("invalid local label: ");
                        message.push_str(&outside::quote(s));
                        return Err(InvalidVersion(message));
                    },
                }
            },
            None => None,
        };
        let VersionParts { epoch, release, pre, post, dev, local: _ } = parts;
        assert forall|i: int| 0 <= i < release@.len() implies small(
            #[trigger] nats(release@)[i],
        ) by {}
        Ok(Version { epoch, release, pre, post, dev, local })
    }

    /// The parts of this version. To change a version, take its parts, change one of them and
    /// build a version again.
    pub fn to_parts(&self) -> (r: VersionParts)
        ensures
            parts_error(r) is None,
            parts_version(r) == self@,
            match r.local {
                Some(t) => canonical::opt_label(self@.local) == Some(t@),
                None => self@.local is None,
            },
    {
        proof {
            use_type_invariant(self);
            if let Some(l) = self@.local {
                canonical::law_label(l);
            }
        }
        let local = self.local();
        VersionParts {
            epoch: self.epoch,
            release: copy_numbers(&self.release),
            pre: self.pre,
            post: self.post,
            dev: self.dev,
            local,
        }
    }
}

/// Reads a version; see [`Version::parse`].
pub fn parse(version: &str) -> (r: Result<Version, InvalidVersion>)
    ensures
        match r {
            Ok(v) => parse_version(version@) == Some(v@) && is_version(v@) && fits(v@),
            Err(e) => parse_version(version@) is None && e.0@ == version@,
        },
{
    Version::parse(version)
}

impl FromStr for Version {
    type Err = InvalidVersion;

    fn from_str(s: &str) -> (r: Result<Version, InvalidVersion>)
        ensures
            match r {
                Ok(v) => parse_version(s@) == Some(v@),
                Err(e) => parse_version(s@) is None && e.0@ == s@,
            },
    {
        Version::parse(s)
    }
}

impl Clone for Version {
    fn clone(&self) -> (r: Version)
        ensures
            r@ == self@,
    {
        proof {
            use_type_invariant(self);
        }
        let local = match &self.local {
            Some(l) => {
                let mut out: Vec<LocalSegment> = Vec::new();
                let mut i: usize = 0;
                while i < l.len()
                    invariant
                        i <= l@.len(),
                        out@ == l@.take(i as int),
                    decreases l@.len() - i,
                {
                    out.push(l[i].clone());
                    i += 1;
                    assert(out@ =~= l@.take(i as int));
                }
                assert(out@ =~= l@);
                Some(out)
            },
            None => None,
        };
        Version {
            epoch: self.epoch,
            release: copy_numbers(&self.release),
            pre: self.pre,
            post: self.post,
            dev: self.dev,
            local,
        }
    }
}

// --- Order. ---

/// How two numbers compare.
fn compare_numbers(a: u64, b: u64) -> (r: Sign)
    ensures
        r == order::sign(a - b),
{
    if a < b {
        Sign::Before
    } else if a > b {
        Sign::After
    } else {
        Sign::Same
    }
}

/// How two releases compare.
fn compare_release(a: &[u64], b: &[u64]) -> (r: Sign)
    ensures
        r == order::sign(ranking::compare_release(nats(a@), nats(b@))),
{
    let m: usize = trimmed_len(a);
    let n: usize = trimmed_len(b);
    let ghost s = ranking::trim_release(nats(a@));
    let ghost t = ranking::trim_release(nats(b@));
    let mut i: usize = 0;
    assert(s.skip(0) =~= s);
    assert(t.skip(0) =~= t);
    while i < m && i < n
        invariant
            i <= m <= a@.len(),
            i <= n <= b@.len(),
            s == ranking::trim_release(nats(a@)),
            t == ranking::trim_release(nats(b@)),
            s == nats(a@).take(m as int),
            t == nats(b@).take(n as int),
            order::compare_seq(s, t, order::nat_order()) == order::compare_seq(
                s.skip(i as int),
                t.skip(i as int),
                order::nat_order(),
            ),
        decreases m - i,
    {
        assert(s[i as int] == a@[i as int] as nat);
        assert(t[i as int] == b@[i as int] as nat);
        if a[i] < b[i] {
            return Sign::Before;
        }
        if a[i] > b[i] {
            return Sign::After;
        }
        assert(s.skip(i as int).skip(1) =~= s.skip(i + 1));
        assert(t.skip(i as int).skip(1) =~= t.skip(i + 1));
        i += 1;
    }
    if m < n {
        Sign::Before
    } else if m > n {
        Sign::After
    } else {
        Sign::Same
    }
}

/// How two segments of local labels compare.
fn compare_segment(a: &LocalSegment, b: &LocalSegment) -> (r: Sign)
    ensures
        r == order::sign(ranking::compare_part(a@, b@)),
{
    match (a, b) {
        (LocalSegment::String(s), LocalSegment::String(t)) => chars::compare_text(
            &chars::chars_of(s),
            &chars::chars_of(t),
        ),
        (LocalSegment::String(_), LocalSegment::Number(_)) => Sign::Before,
        (LocalSegment::Number(_), LocalSegment::String(_)) => Sign::After,
        (LocalSegment::Number(m), LocalSegment::Number(n)) => compare_numbers(*m, *n),
    }
}

/// How two local labels compare.
fn compare_label(a: &[LocalSegment], b: &[LocalSegment]) -> (r: Sign)
    ensures
        r == order::sign(order::compare_seq(parts(a@), parts(b@), ranking::part_order())),
{
    let ghost s = parts(a@);
    let ghost t = parts(b@);
    let mut i: usize = 0;
    assert(s.skip(0) =~= s);
    assert(t.skip(0) =~= t);
    while i < a.len() && i < b.len()
        invariant
            i <= a@.len(),
            i <= b@.len(),
            s == parts(a@),
            t == parts(b@),
            order::compare_seq(s, t, ranking::part_order()) == order::compare_seq(
                s.skip(i as int),
                t.skip(i as int),
                ranking::part_order(),
            ),
        decreases a@.len() - i,
    {
        assert(s[i as int] == a@[i as int]@);
        assert(t[i as int] == b@[i as int]@);
        let c = compare_segment(&a[i], &b[i]);
        if c != Sign::Same {
            return c;
        }
        assert(s.skip(i as int).skip(1) =~= s.skip(i + 1));
        assert(t.skip(i as int).skip(1) =~= t.skip(i + 1));
        i += 1;
    }
    if a.len() < b.len() {
        Sign::Before
    } else if a.len() > b.len() {
        Sign::After
    } else {
        Sign::Same
    }
}

/// How two optional numbers compare, with none before any.
fn compare_option(a: Option<u64>, b: Option<u64>) -> (r: Sign)
    ensures
        r == order::sign(
            (if a is Some {
                a->0 as int
            } else {
                -1
            }) - (if b is Some {
                b->0 as int
            } else {
                -1
            }),
        ),
{
    match (a, b) {
        (Some(m), Some(n)) => compare_numbers(m, n),
        (Some(_), None) => Sign::After,
        (None, Some(_)) => Sign::Before,
        (None, None) => Sign::Same,
    }
}

impl Version {
    /// The place of the stage of this release among the stages.
    fn pre_rank(&self) -> (r: i8)
        ensures
            r == ranking::pre_rank(self@),
    {
        match self.pre {
            Some((PreLetter::A, _)) => 0,
            Some((PreLetter::B, _)) => 1,
            Some((PreLetter::Rc, _)) => 2,
            None => if self.post.is_none() && self.dev.is_some() {
                -1
            } else {
                3
            },
        }
    }

    /// The number of a pre-release.
    fn pre_number(&self) -> (r: u64)
        ensures
            r == ranking::pre_number(self@),
    {
        match self.pre {
            Some((_, n)) => n,
            None => 0,
        }
    }

    /// How the stages of two releases compare.
    fn compare_stage(&self, other: &Version) -> (r: Sign)
        ensures
            r == order::sign(ranking::compare_stage(self@, other@)),
    {
        let m: i8 = self.pre_rank();
        let n: i8 = other.pre_rank();
        if m < n {
            return Sign::Before;
        }
        if m > n {
            return Sign::After;
        }
        let c = compare_numbers(self.pre_number(), other.pre_number());
        if c != Sign::Same {
            return c;
        }
        let c = compare_option(self.post, other.post);
        if c != Sign::Same {
            return c;
        }
        match (self.dev, other.dev) {
            (Some(m), Some(n)) => compare_numbers(m, n),
            (Some(_), None) => Sign::Before,
            (None, Some(_)) => Sign::After,
            (None, None) => Sign::Same,
        }
    }

    /// How two versions compare.
    pub fn compare(&self, other: &Version) -> (r: Sign)
        ensures
            r == order::sign(ranking::compare(self@, other@)),
    {
        let c = compare_numbers(self.epoch, other.epoch);
        if c != Sign::Same {
            return c;
        }
        let c = compare_release(&self.release, &other.release);
        if c != Sign::Same {
            return c;
        }
        let c = self.compare_stage(other);
        if c != Sign::Same {
            return c;
        }
        match (&self.local, &other.local) {
            (Some(s), Some(t)) => compare_label(s, t),
            (Some(_), None) => Sign::After,
            (None, Some(_)) => Sign::Before,
            (None, None) => Sign::Same,
        }
    }
}

impl Version {
    /// Whether two versions have the same epoch and, but for zeros at its end, the same
    /// release.
    pub fn same_base(&self, other: &Version) -> (r: bool)
        ensures
            r == ranking::same_base(self@, other@),
    {
        proof {
            ranking::lemma_release_order(self@.release, other@.release, other@.release);
        }
        self.epoch == other.epoch && compare_release(&self.release, &other.release) == Sign::Same
    }

    /// This version without its local label.
    pub fn without_local(&self) -> (r: Version)
        ensures
            r@ == (VersionSpec { local: None, ..self@ }),
    {
        proof {
            use_type_invariant(self);
        }
        Version {
            epoch: self.epoch,
            release: copy_numbers(&self.release),
            pre: self.pre,
            post: self.post,
            dev: self.dev,
            local: None,
        }
    }
}

impl PartialEq for Version {
    fn eq(&self, other: &Version) -> (r: bool) {
        self.compare(other) == Sign::Same
    }
}

impl vstd::std_specs::cmp::PartialEqSpecImpl for Version {
    open spec fn obeys_eq_spec() -> bool {
        true
    }

    open spec fn eq_spec(&self, other: &Version) -> bool {
        ranking::compare(self@, other@) == 0
    }
}

impl Eq for Version {

}

impl PartialOrd for Version {
    fn partial_cmp(&self, other: &Version) -> (r: Option<Ordering>) {
        match self.compare(other) {
            Sign::Before => Some(Ordering::Less),
            Sign::Same => Some(Ordering::Equal),
            Sign::After => Some(Ordering::Greater),
        }
    }
}

impl vstd::std_specs::cmp::PartialOrdSpecImpl for Version {
    open spec fn obeys_partial_cmp_spec() -> bool {
        true
    }

    open spec fn partial_cmp_spec(&self, other: &Version) -> Option<Ordering> {
        if ranking::compare(self@, other@) < 0 {
            Some(Ordering::Less)
        } else if ranking::compare(self@, other@) == 0 {
            Some(Ordering::Equal)
        } else {
            Some(Ordering::Greater)
        }
    }
}

impl Version {
    /// The canonical text without the zeros at the end of the release, which equal versions
    /// share.
    pub fn key_text(&self) -> (r: String)
        ensures
            r@ == canonical::render(ranking::trimmed(self@)),
    {
        let n: usize = trimmed_len(&self.release);
        let release = slice_subrange(self.release.as_slice(), 0, n);
        assert(nats(release@) =~= self@.release.take(n as int));
        self.render_with(release)
    }
}

impl Hash for Version {
    fn hash<H: Hasher>(&self, state: &mut H) {
        self.key_text().hash(state);
    }
}

} // verus!
