//! Executable text: the operations of [`crate::text`] on slices of characters, and the way
//! between strings and characters.

use vstd::prelude::*;
use vstd::slice::slice_subrange;

use crate::order::{self, Sign};
use crate::text::{self, Class};

verus! {

/// `String::push` appends one character.
pub assume_specification[ std::string::String::push ](s: &mut std::string::String, c: char)
    ensures
        final(s)@ == old(s)@.push(c),
;

/// `String::push_str` appends a text.
pub assume_specification[ std::string::String::push_str ](s: &mut std::string::String, t: &str)
    ensures
        final(s)@ == old(s)@ + t@,
;

// --- Strings and characters. ---

/// The characters of a string.
pub fn chars_of(s: &str) -> (r: Vec<char>)
    ensures
        r@ == s@,
{
    let mut out: Vec<char> = Vec::new();
    for c in it: s.chars()
        invariant
            out@ == s@.take(it.index()),
            it.seq() == s@,
    {
        out.push(c);
    }
    out
}

/// The string made of the characters.
pub fn string_of(s: &[char]) -> (r: String)
    ensures
        r@ == s@,
{
    let mut out = String::new();
    let mut i: usize = 0;
    while i < s.len()
        invariant
            i <= s@.len(),
            out@ == s@.take(i as int),
        decreases s@.len() - i,
    {
        out.push(s[i]);
        i += 1;
        assert(s@.take(i as int) =~= s@.take(i - 1).push(s@[i - 1]));
    }
    assert(s@.take(i as int) =~= s@);
    out
}

/// Appends the characters to a string.
pub fn push_chars(out: &mut String, s: &[char])
    ensures
        final(out)@ == old(out)@ + s@,
{
    let mut i: usize = 0;
    assert(out@ =~= old(out)@ + s@.take(0));
    while i < s.len()
        invariant
            i <= s@.len(),
            out@ == old(out)@ + s@.take(i as int),
        decreases s@.len() - i,
    {
        out.push(s[i]);
        i += 1;
        assert(out@ =~= old(out)@ + s@.take(i as int));
    }
    assert(s@.take(i as int) =~= s@);
}

/// A copy of a string.
pub fn copy(s: &str) -> (r: String)
    ensures
        r@ == s@,
{
    let mut out = String::new();
    out.push_str(s);
    assert(out@ =~= s@);
    out
}

/// What follows the first `n` characters.
pub fn skip<'a>(s: &'a [char], n: usize) -> (r: &'a [char])
    requires
        n <= s@.len(),
    ensures
        r@ == s@.skip(n as int),
{
    slice_subrange(s, n, s.len())
}

/// The first `n` characters.
pub fn take<'a>(s: &'a [char], n: usize) -> (r: &'a [char])
    requires
        n <= s@.len(),
    ensures
        r@ == s@.take(n as int),
{
    slice_subrange(s, 0, n)
}

/// Whether two slices hold the same characters.
pub fn same(a: &[char], b: &[char]) -> (r: bool)
    ensures
        r == (a@ == b@),
{
    if a.len() != b.len() {
        return false;
    }
    let mut i: usize = 0;
    while i < a.len()
        invariant
            a@.len() == b@.len(),
            i <= a@.len(),
            forall|j: int| 0 <= j < i ==> a@[j] == b@[j],
        decreases a@.len() - i,
    {
        if a[i] != b[i] {
            return false;
        }
        i += 1;
    }
    assert(a@ =~= b@);
    true
}

/// Whether the characters are those of the string.
pub fn is_text(a: &[char], t: &str) -> (r: bool)
    ensures
        r == (a@ == t@),
{
    let b = chars_of(t);
    same(a, &b)
}

/// Whether two strings hold the same characters.
pub fn same_text(a: &str, b: &str) -> (r: bool)
    ensures
        r == (a@ == b@),
{
    let x = chars_of(a);
    is_text(&x, b)
}

// --- Characters. ---

/// Whether `c` is a decimal digit.
pub fn is_digit(c: char) -> (r: bool)
    ensures
        r == text::is_digit(c),
{
    '0' <= c && c <= '9'
}

/// Whether `c` is white space.
pub fn is_space(c: char) -> (r: bool)
    ensures
        r == text::is_space(c),
{
    ('\u{9}' <= c && c <= '\u{d}') || c == ' ' || c == '\u{85}' || c == '\u{a0}' || c == '\u{1680}'
        || ('\u{2000}' <= c && c <= '\u{200a}') || c == '\u{2028}' || c == '\u{2029}' || c
        == '\u{202f}' || c == '\u{205f}' || c == '\u{3000}'
}

/// Whether `c` separates the parts of a version.
pub fn is_separator(c: char) -> (r: bool)
    ensures
        r == text::is_separator(c),
{
    c == '.' || c == '_' || c == '-'
}

/// The ASCII lower case of `c`.
pub fn lower(c: char) -> (r: char)
    ensures
        r == text::lower(c),
{
    if 'A' <= c && c <= 'Z' {
        ((c as u8) + 32) as char
    } else {
        c
    }
}

/// The character that `c` stands for where case is ignored.
pub fn fold(c: char) -> (r: char)
    ensures
        r == text::fold(c),
{
    if c == '\u{17f}' {
        's'
    } else if c == '\u{212a}' {
        'k'
    } else {
        lower(c)
    }
}

/// Whether `c` belongs to the class.
pub fn in_class(k: &Class, c: char) -> (r: bool)
    ensures
        r == text::in_class(*k, c),
{
    match k {
        Class::Digit => is_digit(c),
        Class::Space => is_space(c),
        Class::Label => {
            let f = fold(c);
            is_digit(c) || ('a' <= f && f <= 'z')
        },
        Class::Plain => !is_space(c) && c != ';' && c != ')',
        Class::Blank => c == ' ' || c == '\t',
        Class::Solid => c != ' ' && c != '\t',
        Class::Name => {
            let f = lower(c);
            is_digit(c) || ('a' <= f && f <= 'z') || is_separator(c)
        },
        Class::LowerLabel => is_digit(c) || ('a' <= c && c <= 'z'),
        Class::NotApostrophe => c != '\'',
        Class::NotQuote => c != '"',
    }
}

/// How many characters at the head of `s` belong to the class.
pub fn run(k: &Class, s: &[char]) -> (r: usize)
    ensures
        r == text::run(*k, s@),
        r <= s@.len(),
{
    let mut i: usize = 0;
    assert(s@.skip(0) =~= s@);
    while i < s.len() && in_class(k, s[i])
        invariant
            i <= s@.len(),
            text::run(*k, s@) == i + text::run(*k, s@.skip(i as int)),
        decreases s@.len() - i,
    {
        assert(s@.skip(i as int).skip(1) =~= s@.skip(i + 1));
        i += 1;
    }
    i
}

/// Whether all of `s` belongs to the class.
pub fn all_in(k: &Class, s: &[char]) -> (r: bool)
    ensures
        r == text::all_in(*k, s@),
{
    let mut i: usize = 0;
    while i < s.len()
        invariant
            i <= s@.len(),
            forall|j: int| 0 <= j < i ==> text::in_class(*k, #[trigger] s@[j]),
        decreases s@.len() - i,
    {
        if !in_class(k, s[i]) {
            return false;
        }
        i += 1;
    }
    true
}

/// Whether all of `s` is ASCII.
pub fn is_ascii(s: &[char]) -> (r: bool)
    ensures
        r == text::is_ascii(s@),
{
    let mut i: usize = 0;
    while i < s.len()
        invariant
            i <= s@.len(),
            forall|j: int| 0 <= j < i ==> (#[trigger] s@[j] as u32) < 128,
        decreases s@.len() - i,
    {
        if (s[i] as u32) >= 128 {
            return false;
        }
        i += 1;
    }
    true
}

/// `s` in ASCII lower case.
pub fn lower_text(s: &[char]) -> (r: Vec<char>)
    ensures
        r@ == text::lower_text(s@),
{
    let mut out: Vec<char> = Vec::new();
    let mut i: usize = 0;
    while i < s.len()
        invariant
            i <= s@.len(),
            out@.len() == i,
            forall|j: int| 0 <= j < i ==> out@[j] == text::lower(s@[j]),
        decreases s@.len() - i,
    {
        out.push(lower(s[i]));
        i += 1;
    }
    assert(out@ =~= text::lower_text(s@));
    out
}

// --- Heads, tails and parts. ---

/// Whether `s` begins with `head`.
pub fn begins(s: &[char], head: &[char]) -> (r: bool)
    ensures
        r == text::starts_with(s@, head@),
{
    head.len() <= s.len() && same(take(s, head.len()), head)
}

/// Whether `s` begins with the text `head`.
pub fn starts_with(s: &[char], head: &str) -> (r: bool)
    ensures
        r == text::starts_with(s@, head@),
{
    let h = chars_of(head);
    begins(s, &h)
}

/// Whether `s` ends with the text `tail`.
pub fn ends_with(s: &[char], tail: &str) -> (r: bool)
    ensures
        r == text::ends_with(s@, tail@),
{
    let t = chars_of(tail);
    t.len() <= s.len() && same(skip(s, s.len() - t.len()), &t)
}

/// The length of the word `head` where `s` begins with it, whatever the case of its letters.
pub fn starts_folded(s: &[char], head: &str) -> (r: bool)
    ensures
        r == text::starts_folded(s@, head@),
{
    let h = chars_of(head);
    if h.len() > s.len() {
        return false;
    }
    let mut i: usize = 0;
    while i < h.len()
        invariant
            h@ == head@,
            h@.len() <= s@.len(),
            i <= h@.len(),
            forall|j: int| 0 <= j < i ==> text::fold(#[trigger] s@[j]) == h@[j],
        decreases h@.len() - i,
    {
        if fold(s[i]) != h[i] {
            return false;
        }
        i += 1;
    }
    true
}

/// Whether `part` occurs in `s`.
pub fn contains_text(s: &[char], part: &[char]) -> (r: bool)
    ensures
        r == text::contains_text(s@, part@),
{
    let mut i: usize = 0;
    while i < s.len()
        invariant
            i <= s@.len(),
            forall|j: int| 0 <= j < i ==> !text::starts_with(#[trigger] s@.skip(j), part@),
        decreases s@.len() - i,
    {
        if begins(skip(s, i), part) {
            return true;
        }
        i += 1;
    }
    begins(skip(s, i), part)
}

/// `s` without the white space at its end.
pub fn trim_end<'a>(s: &'a [char]) -> (r: &'a [char])
    ensures
        r@ == text::trim_end(s@),
{
    let mut n: usize = s.len();
    assert(s@.take(n as int) =~= s@);
    while n > 0 && is_space(s[n - 1])
        invariant
            n <= s@.len(),
            text::trim_end(s@) == text::trim_end(s@.take(n as int)),
        decreases n,
    {
        assert(s@.take(n as int).drop_last() =~= s@.take(n - 1));
        n -= 1;
    }
    take(s, n)
}

/// `s` without the white space around it.
pub fn trim<'a>(s: &'a [char]) -> (r: &'a [char])
    ensures
        r@ == text::trim(s@),
{
    let n: usize = run(&Class::Space, s);
    trim_end(skip(s, n))
}

/// Whether `c` is one of `marks`.
pub fn is_one_of(c: char, marks: &[char]) -> (r: bool)
    ensures
        r == marks@.contains(c),
{
    let mut i: usize = 0;
    while i < marks.len()
        invariant
            i <= marks@.len(),
            forall|j: int| 0 <= j < i ==> marks@[j] != c,
        decreases marks@.len() - i,
    {
        if marks[i] == c {
            return true;
        }
        i += 1;
    }
    false
}

/// The place of the first character of `s` that is one of `marks`; the length where none is.
pub fn first_of(s: &[char], marks: &[char]) -> (r: usize)
    ensures
        r == text::first_of(s@, marks@),
        r <= s@.len(),
{
    let mut i: usize = 0;
    assert(s@.skip(0) =~= s@);
    while i < s.len() && !is_one_of(s[i], marks)
        invariant
            i <= s@.len(),
            text::first_of(s@, marks@) == i + text::first_of(s@.skip(i as int), marks@),
        decreases s@.len() - i,
    {
        assert(s@.skip(i as int).skip(1) =~= s@.skip(i + 1));
        i += 1;
    }
    i
}

/// The place of the last `mark` in `s`, if there is one.
pub fn last_of(s: &[char], mark: char) -> (r: Option<usize>)
    ensures
        match r {
            Some(n) => text::last_of(s@, mark) == Some(n as nat) && n < s@.len(),
            None => text::last_of(s@, mark) is None,
        },
{
    let mut n: usize = s.len();
    assert(s@.take(n as int) =~= s@);
    while n > 0
        invariant
            n <= s@.len(),
            text::last_of(s@, mark) == text::last_of(s@.take(n as int), mark),
        decreases n,
    {
        if s[n - 1] == mark {
            return Some(n - 1);
        }
        assert(s@.take(n as int).drop_last() =~= s@.take(n - 1));
        n -= 1;
    }
    None
}

/// The texts that a list of slices holds.
pub open spec fn views(parts: Seq<&[char]>) -> Seq<Seq<char>> {
    parts.map_values(|p: &[char]| p@)
}

/// The parts of `s` between the characters that are one of `marks`.
pub fn split<'a>(s: &'a [char], marks: &[char]) -> (r: Vec<&'a [char]>)
    ensures
        views(r@) == text::split(s@, marks@),
        r@.len() > 0,
{
    let mut out: Vec<&'a [char]> = Vec::new();
    let mut rest: &'a [char] = s;
    assert(views(out@) + text::split(rest@, marks@) =~= text::split(s@, marks@));
    loop
        invariant_except_break
            views(out@) + text::split(rest@, marks@) == text::split(s@, marks@),
        ensures
            views(out@) == text::split(s@, marks@),
            out@.len() > 0,
        decreases rest@.len(),
    {
        let n: usize = first_of(rest, marks);
        let ghost before = out@;
        if n >= rest.len() {
            out.push(rest);
            assert(views(out@) =~= views(before) + seq![rest@]);
            break;
        }
        let part = take(rest, n);
        let ghost whole = rest@;
        out.push(part);
        rest = skip(rest, n + 1);
        assert(views(out@) =~= views(before).push(whole.take(n as int)));
        assert(views(out@) + text::split(rest@, marks@) =~= views(before) + text::split(
            whole,
            marks@,
        ));
    }
    out
}

// --- Numbers. ---

proof fn lemma_number_grows(s: Seq<char>, i: int)
    requires
        0 <= i <= s.len(),
    ensures
        text::number(s.take(i)) <= text::number(s),
    decreases s.len() - i,
{
    if i < s.len() {
        lemma_number_grows(s, i + 1);
        assert(s.take(i + 1).drop_last() =~= s.take(i));
    } else {
        assert(s.take(i) =~= s);
    }
}

/// The number that a row of digits stands for, where it fits.
pub fn number(s: &[char]) -> (r: Option<u64>)
    requires
        text::all_in(Class::Digit, s@),
    ensures
        match r {
            Some(n) => n == text::number(s@),
            None => text::number(s@) > u64::MAX,
        },
{
    let mut n: u64 = 0;
    let mut i: usize = 0;
    assert(s@.take(0) =~= Seq::<char>::empty());
    while i < s.len()
        invariant
            text::all_in(Class::Digit, s@),
            i <= s@.len(),
            n == text::number(s@.take(i as int)),
        decreases s@.len() - i,
    {
        assert(s@.take(i + 1).drop_last() =~= s@.take(i as int));
        assert(text::in_class(Class::Digit, s@[i as int]));
        let d: u64 = (s[i] as u8 - 48u8) as u64;
        proof {
            lemma_number_grows(s@, i + 1);
        }
        if n > u64::MAX / 10 {
            return None;
        }
        let m: u64 = n * 10;
        if m > u64::MAX - d {
            return None;
        }
        n = m + d;
        i += 1;
    }
    assert(s@.take(i as int) =~= s@);
    Some(n)
}

/// Appends a number in decimal notation.
pub fn push_number(out: &mut String, n: u64)
    ensures
        final(out)@ == old(out)@ + text::decimal(n as nat),
    decreases n,
{
    if n >= 10 {
        push_number(out, n / 10);
    }
    out.push((48u8 + (n % 10) as u8) as char);
    assert(out@ =~= old(out)@ + text::decimal(n as nat));
}

// --- Order. ---

/// How two texts compare.
pub fn compare_text(a: &[char], b: &[char]) -> (r: Sign)
    ensures
        r == order::sign(order::compare_text(a@, b@)),
{
    let mut i: usize = 0;
    assert(a@.skip(0) =~= a@);
    assert(b@.skip(0) =~= b@);
    while i < a.len() && i < b.len()
        invariant
            i <= a@.len(),
            i <= b@.len(),
            order::compare_text(a@, b@) == order::compare_text(
                a@.skip(i as int),
                b@.skip(i as int),
            ),
        decreases a@.len() - i,
    {
        if a[i] < b[i] {
            return Sign::Before;
        }
        if a[i] > b[i] {
            return Sign::After;
        }
        assert(a@.skip(i as int).skip(1) =~= a@.skip(i + 1));
        assert(b@.skip(i as int).skip(1) =~= b@.skip(i + 1));
        i += 1;
    }
    if a.len() < b.len() {
        Sign::Before
    } else if a.len() > b.len() {
        Sign::After
    } else {
        Sign::Same
    }
}

// --- Bytes. ---

/// How many bytes a character takes in UTF-8.
fn char_bytes(c: char) -> (r: usize)
    ensures
        r == text::byte_len(seq![c]),
        1 <= r <= 4,
{
    proof {
        let s = seq![c];
        assert(s.drop_first() =~= Seq::<char>::empty());
        assert(vstd::utf8::encode_utf8(Seq::<char>::empty()).len() == 0);
        assert(text::byte_len(s) == vstd::utf8::encode_scalar(c as u32).len());
    }
    let n: u32 = c as u32;
    if n <= 0x7f {
        1
    } else if n <= 0x7ff {
        2
    } else if n <= 0xffff {
        3
    } else {
        4
    }
}

/// How many bytes a text takes in UTF-8.
pub fn count_bytes(s: &[char]) -> (r: usize)
    requires
        text::byte_len(s@) <= usize::MAX,
    ensures
        r == text::byte_len(s@),
{
    let mut n: usize = 0;
    let mut i: usize = 0;
    assert(text::head(s@, 0) =~= Seq::<char>::empty());
    while i < s.len()
        invariant
            i <= s@.len(),
            n == text::byte_at(s@, i as nat),
            text::byte_len(s@) <= usize::MAX,
        decreases s@.len() - i,
    {
        proof {
            text::lemma_byte_at(s@, i as nat, 1);
            assert(text::head(text::after(s@, i as nat), 1) =~= seq![s@[i as int]]);
        }
        n = n + char_bytes(s[i]);
        i += 1;
    }
    assert(text::head(s@, i as nat) =~= s@);
    n
}

} // verus!
