//! Text as sequences of characters: the classes of characters that the grammars are made
//! of, and the operations on text that the rest of the crate is stated with.

use vstd::prelude::*;

verus! {

// --- Characters. ---

/// A decimal digit.
pub open spec fn is_digit(c: char) -> bool {
    '0' <= c <= '9'
}

/// A character with the Unicode property White_Space.
pub open spec fn is_space(c: char) -> bool {
    ||| '\u{9}' <= c <= '\u{d}'
    ||| c == ' '
    ||| c == '\u{85}'
    ||| c == '\u{a0}'
    ||| c == '\u{1680}'
    ||| '\u{2000}' <= c <= '\u{200a}'
    ||| c == '\u{2028}'
    ||| c == '\u{2029}'
    ||| c == '\u{202f}'
    ||| c == '\u{205f}'
    ||| c == '\u{3000}'
}

/// A separator inside a version: a dot, an underscore or a dash.
pub open spec fn is_separator(c: char) -> bool {
    c == '.' || c == '_' || c == '-'
}

/// The ASCII lower case of a character; other characters stand for themselves.
pub open spec fn lower(c: char) -> char {
    if 'A' <= c <= 'Z' {
        ((c as u32) + 32) as char
    } else {
        c
    }
}

/// The character that `c` stands for where case is ignored. Besides the ASCII capitals these
/// are the two characters whose Unicode case folding is an ASCII letter: the long s
/// (U+017F) and the Kelvin sign (U+212A).
pub open spec fn fold(c: char) -> char {
    if c == '\u{17f}' {
        's'
    } else if c == '\u{212a}' {
        'k'
    } else {
        lower(c)
    }
}

/// The classes of characters that the grammars repeat.
pub enum Class {
    /// `0` to `9`.
    Digit,
    /// White space.
    Space,
    /// A letter or digit of a local version label, whatever its case.
    Label,
    /// What an arbitrary version may hold: anything but white space, `;` and `)`.
    Plain,
    /// A space or a tab.
    Blank,
    /// Anything but a space or a tab.
    Solid,
    /// A letter or digit of ASCII, a dot, an underscore or a dash.
    Name,
    /// A lower-case letter of ASCII or a digit.
    LowerLabel,
    /// Anything but a single quote.
    NotApostrophe,
    /// Anything but a double quote.
    NotQuote,
}

/// Whether `c` belongs to the class.
pub open spec fn in_class(k: Class, c: char) -> bool {
    match k {
        Class::Digit => is_digit(c),
        Class::Space => is_space(c),
        Class::Label => is_digit(c) || 'a' <= fold(c) <= 'z',
        Class::Plain => !is_space(c) && c != ';' && c != ')',
        Class::Blank => c == ' ' || c == '\t',
        Class::Solid => c != ' ' && c != '\t',
        Class::Name => is_digit(c) || 'a' <= lower(c) <= 'z' || is_separator(c),
        Class::LowerLabel => is_digit(c) || 'a' <= c <= 'z',
        Class::NotApostrophe => c != '\'',
        Class::NotQuote => c != '"',
    }
}

/// How many characters at the head of `s` belong to the class.
pub open spec fn run(k: Class, s: Seq<char>) -> nat
    decreases s.len(),
{
    if s.len() > 0 && in_class(k, s[0]) {
        1 + run(k, s.skip(1))
    } else {
        0
    }
}

/// A run is no longer than the text.
pub proof fn lemma_run_len(k: Class, s: Seq<char>)
    ensures
        run(k, s) <= s.len(),
    decreases s.len(),
{
    if s.len() > 0 && in_class(k, s[0]) {
        lemma_run_len(k, s.skip(1));
    }
}

/// Whether all of `s` belongs to the class.
pub open spec fn all_in(k: Class, s: Seq<char>) -> bool {
    forall|i: int| 0 <= i < s.len() ==> in_class(k, #[trigger] s[i])
}

/// A run holds only characters of its class, and ends at one that does not belong to it.
pub proof fn lemma_run_all(k: Class, s: Seq<char>)
    ensures
        run(k, s) <= s.len(),
        all_in(k, head(s, run(k, s))),
        run(k, s) < s.len() ==> !in_class(k, s[run(k, s) as int]),
    decreases s.len(),
{
    if s.len() > 0 && in_class(k, s[0]) {
        let t = s.skip(1);
        lemma_run_all(k, t);
        assert forall|i: int| 0 <= i < run(k, s) implies in_class(
            k,
            #[trigger] head(s, run(k, s))[i],
        ) by {
            if i > 0 {
                assert(head(t, run(k, t))[i - 1] == s[i]);
            }
        }
    }
}

/// A run is the same in a head of the text that is long enough.
pub proof fn lemma_run_head(k: Class, s: Seq<char>, n: nat)
    requires
        run(k, s) <= n <= s.len(),
    ensures
        run(k, head(s, n)) == run(k, s),
    decreases s.len(),
{
    if n > 0 && in_class(k, s[0]) {
        lemma_run_head(k, s.skip(1), (n - 1) as nat);
        assert(head(s, n).skip(1) =~= head(s.skip(1), (n - 1) as nat));
    }
}

/// Whether all of `s` is ASCII.
pub open spec fn is_ascii(s: Seq<char>) -> bool {
    forall|i: int| 0 <= i < s.len() ==> (#[trigger] s[i] as u32) < 128
}

/// `s` in ASCII lower case.
pub open spec fn lower_text(s: Seq<char>) -> Seq<char> {
    s.map_values(|c: char| lower(c))
}

// --- Heads, tails and parts. ---

/// What follows the first `n` characters of `s`.
pub open spec fn after(s: Seq<char>, n: nat) -> Seq<char> {
    s.skip(n as int)
}

/// The first `n` characters of `s`.
pub open spec fn head(s: Seq<char>, n: nat) -> Seq<char> {
    s.take(n as int)
}

/// Whether `s` begins with `head`.
pub open spec fn starts_with(s: Seq<char>, head: Seq<char>) -> bool {
    head.len() <= s.len() && s.take(head.len() as int) == head
}

/// Whether `s` ends with `tail`.
pub open spec fn ends_with(s: Seq<char>, tail: Seq<char>) -> bool {
    tail.len() <= s.len() && s.skip(s.len() - tail.len()) == tail
}

/// Whether `s` begins with the word `head`, whatever the case of its letters.
pub open spec fn starts_folded(s: Seq<char>, head: Seq<char>) -> bool {
    head.len() <= s.len() && forall|i: int| 0 <= i < head.len() ==> fold(#[trigger] s[i]) == head[i]
}

/// Whether `part` occurs in `s`.
pub open spec fn contains_text(s: Seq<char>, part: Seq<char>) -> bool {
    exists|i: int| 0 <= i <= s.len() && starts_with(#[trigger] s.skip(i), part)
}

/// `s` without the white space at its end.
pub open spec fn trim_end(s: Seq<char>) -> Seq<char>
    decreases s.len(),
{
    if s.len() > 0 && is_space(s.last()) {
        trim_end(s.drop_last())
    } else {
        s
    }
}

/// `s` without the white space around it.
pub open spec fn trim(s: Seq<char>) -> Seq<char> {
    trim_end(s.skip(run(Class::Space, s) as int))
}

/// The place of the first character of `s` that is one of `marks`; the length where none is.
pub open spec fn first_of(s: Seq<char>, marks: Seq<char>) -> nat
    decreases s.len(),
{
    if s.len() == 0 || marks.contains(s[0]) {
        0
    } else {
        1 + first_of(s.skip(1), marks)
    }
}

/// The place of a first mark: nothing before it is a mark.
pub proof fn lemma_first_of(s: Seq<char>, marks: Seq<char>, n: int)
    requires
        0 <= n <= s.len(),
        forall|i: int| 0 <= i < n ==> !marks.contains(#[trigger] s[i]),
        n < s.len() ==> marks.contains(s[n]),
    ensures
        first_of(s, marks) == n,
    decreases s.len(),
{
    if n > 0 {
        assert(!marks.contains(s[0]));
        let t = s.skip(1);
        assert forall|i: int| 0 <= i < n - 1 implies !marks.contains(#[trigger] t[i]) by {
            assert(t[i] == s[i + 1]);
        }
        lemma_first_of(t, marks, n - 1);
    }
}

/// The place of the last `mark` in `s`, if there is one.
pub open spec fn last_of(s: Seq<char>, mark: char) -> Option<nat>
    decreases s.len(),
{
    if s.len() == 0 {
        None
    } else if s.last() == mark {
        Some((s.len() - 1) as nat)
    } else {
        last_of(s.drop_last(), mark)
    }
}

/// The parts of `s` between the characters that are one of `marks`.
pub open spec fn split(s: Seq<char>, marks: Seq<char>) -> Seq<Seq<char>>
    decreases s.len(),
    via split_decreases
{
    let n = first_of(s, marks);
    if n >= s.len() {
        seq![s]
    } else {
        seq![s.take(n as int)] + split(s.skip(n as int + 1), marks)
    }
}

#[via_fn]
proof fn split_decreases(s: Seq<char>, marks: Seq<char>) {
}

/// The parts, with `glue` between each and the next.
pub open spec fn join(parts: Seq<Seq<char>>, glue: Seq<char>) -> Seq<char>
    decreases parts.len(),
{
    if parts.len() == 0 {
        Seq::empty()
    } else if parts.len() == 1 {
        parts[0]
    } else {
        parts[0] + glue + join(parts.skip(1), glue)
    }
}

// --- Bytes. ---

/// How many bytes a text takes in UTF-8.
pub open spec fn byte_len(s: Seq<char>) -> nat {
    vstd::utf8::encode_utf8(s).len()
}

/// How many bytes of a text come before its `i`-th character.
pub open spec fn byte_at(s: Seq<char>, i: nat) -> nat {
    byte_len(head(s, i))
}

/// Texts take the bytes of their parts.
pub proof fn lemma_byte_len_add(a: Seq<char>, b: Seq<char>)
    ensures
        byte_len(a + b) == byte_len(a) + byte_len(b),
    decreases a.len(),
{
    if a.len() == 0 {
        assert(a + b =~= b);
    } else {
        lemma_byte_len_add(a.drop_first(), b);
        assert((a + b).drop_first() =~= a.drop_first() + b);
    }
}

/// Each character takes a byte at least.
pub proof fn lemma_byte_len_chars(s: Seq<char>)
    ensures
        byte_len(s) >= s.len(),
    decreases s.len(),
{
    if s.len() > 0 {
        lemma_byte_len_chars(s.drop_first());
    }
}

/// Later characters come after no fewer bytes.
pub proof fn lemma_byte_at(s: Seq<char>, i: nat, n: nat)
    requires
        i + n <= s.len(),
    ensures
        byte_at(s, i + n) == byte_at(s, i) + byte_len(head(after(s, i), n)),
        byte_at(s, i + n) <= byte_len(s),
{
    let a = head(s, i);
    let b = head(after(s, i), n);
    assert(head(s, i + n) =~= a + b);
    lemma_byte_len_add(a, b);
    assert(s =~= head(s, i + n) + after(s, i + n));
    lemma_byte_len_add(head(s, i + n), after(s, i + n));
}

// --- Numbers. ---

/// The number that a decimal digit stands for.
pub open spec fn digit_value(c: char) -> nat {
    ((c as int) - ('0' as int)) as nat
}

/// The number that a row of decimal digits stands for; an empty row stands for zero.
pub open spec fn number(s: Seq<char>) -> nat
    decreases s.len(),
{
    if s.len() == 0 {
        0
    } else {
        number(s.drop_last()) * 10 + digit_value(s.last())
    }
}

/// The decimal digit of a number below ten.
pub open spec fn digit_char(d: nat) -> char {
    (('0' as int) + d) as char
}

/// A number in decimal notation, without leading zeros.
pub open spec fn decimal(n: nat) -> Seq<char>
    decreases n,
{
    if n < 10 {
        seq![digit_char(n)]
    } else {
        decimal(n / 10).push(digit_char(n % 10))
    }
}

// --- Facts. ---

/// A text of one class is a run by itself, up to a text that does not go on with the class.
pub proof fn lemma_run_concat(k: Class, s: Seq<char>, rest: Seq<char>)
    requires
        all_in(k, s),
        rest.len() > 0 ==> !in_class(k, rest[0]),
    ensures
        run(k, s + rest) == s.len(),
    decreases s.len(),
{
    if s.len() > 0 {
        assert(in_class(k, s[0]));
        assert forall|i: int| 0 <= i < s.skip(1).len() implies in_class(
            k,
            #[trigger] s.skip(1)[i],
        ) by {
            assert(in_class(k, s[i + 1]));
        }
        lemma_run_concat(k, s.skip(1), rest);
        assert((s + rest).skip(1) =~= s.skip(1) + rest);
    } else {
        assert(s + rest =~= rest);
    }
}

/// Decimal notation is made of digits and says the number it was made from.
pub proof fn lemma_decimal(n: nat)
    ensures
        decimal(n).len() > 0,
        all_in(Class::Digit, decimal(n)),
        number(decimal(n)) == n,
    decreases n,
{
    if n < 10 {
        let c = digit_char(n);
        assert(decimal(n).drop_last() =~= Seq::<char>::empty());
        assert(decimal(n).last() == c);
        assert(number(Seq::<char>::empty()) == 0);
    } else {
        lemma_decimal(n / 10);
        let d = decimal(n);
        assert(d.drop_last() =~= decimal(n / 10));
        assert(d.last() == digit_char(n % 10));
        assert forall|i: int| 0 <= i < d.len() implies in_class(Class::Digit, #[trigger] d[i]) by {
            if i < d.len() - 1 {
                assert(d[i] == decimal(n / 10)[i]);
            }
        }
    }
}

/// Joining one part more.
pub proof fn lemma_join_push(parts: Seq<Seq<char>>, p: Seq<char>, glue: Seq<char>)
    requires
        parts.len() > 0,
    ensures
        join(parts.push(p), glue) == join(parts, glue) + glue + p,
    decreases parts.len(),
{
    let all = parts.push(p);
    if parts.len() == 1 {
        assert(all.skip(1) =~= seq![p]);
        assert(join(all.skip(1), glue) =~= p);
    } else {
        lemma_join_push(parts.skip(1), p, glue);
        assert(all.skip(1) =~= parts.skip(1).push(p));
        assert(join(all, glue) =~= join(parts, glue) + glue + p);
    }
}

/// Parts that hold no mark come back from what they were joined to with one.
pub proof fn lemma_split_join(parts: Seq<Seq<char>>, mark: char, marks: Seq<char>)
    requires
        parts.len() > 0,
        marks.contains(mark),
        forall|i: int, j: int|
            0 <= i < parts.len() && 0 <= j < parts[i].len() ==> !marks.contains(
                #[trigger] parts[i][j],
            ),
    ensures
        split(join(parts, seq![mark]), marks) == parts,
    decreases parts.len(),
{
    let p = parts[0];
    let s = join(parts, seq![mark]);
    assert forall|j: int| 0 <= j < p.len() implies !marks.contains(#[trigger] p[j]) by {
        assert(!marks.contains(parts[0][j]));
    }
    if parts.len() == 1 {
        lemma_first_of(s, marks, p.len() as int);
        assert(seq![s] =~= parts);
    } else {
        let rest = parts.skip(1);
        assert forall|i: int, j: int|
            0 <= i < rest.len() && 0 <= j < rest[i].len() implies !marks.contains(
            #[trigger] rest[i][j],
        ) by {
            assert(!marks.contains(parts[i + 1][j]));
        }
        lemma_split_join(rest, mark, marks);
        assert forall|i: int| 0 <= i < p.len() implies !marks.contains(#[trigger] s[i]) by {
            assert(s[i] == p[i]);
        }
        assert(s[p.len() as int] == mark);
        lemma_first_of(s, marks, p.len() as int);
        assert(s.take(p.len() as int) =~= p);
        assert(s.skip(p.len() as int + 1) =~= join(rest, seq![mark]));
        assert(seq![p] + rest =~= parts);
    }
}

/// A text without white space at its ends is its own trimming.
pub proof fn lemma_trim_none(s: Seq<char>)
    requires
        s.len() > 0 ==> !is_space(s[0]) && !is_space(s.last()),
    ensures
        trim(s) == s,
{
    assert(run(Class::Space, s) == 0);
    assert(s.skip(0) =~= s);
}

/// The last character of joined parts is that of the last part.
pub proof fn lemma_join_last(parts: Seq<Seq<char>>, glue: Seq<char>)
    requires
        parts.len() > 0,
        parts.last().len() > 0,
    ensures
        join(parts, glue).len() > 0,
        join(parts, glue).last() == parts.last().last(),
    decreases parts.len(),
{
    if parts.len() > 1 {
        lemma_join_last(parts.skip(1), glue);
    }
}

/// A text without the white space at its end is a head of the text, and does not end in white
/// space.
pub proof fn lemma_trim_end(s: Seq<char>)
    ensures
        trim_end(s).len() <= s.len(),
        trim_end(s) == s.take(trim_end(s).len() as int),
        trim_end(s).len() > 0 ==> !is_space(trim_end(s).last()),
    decreases s.len(),
{
    if s.len() > 0 && is_space(s.last()) {
        lemma_trim_end(s.drop_last());
        assert(trim_end(s) =~= s.take(trim_end(s).len() as int));
    } else {
        assert(s =~= s.take(s.len() as int));
    }
}

/// There is no white space around a trimmed text.
pub proof fn lemma_trim_ends(s: Seq<char>)
    ensures
        trim(s).len() <= s.len(),
        trim(s).len() > 0 ==> !is_space(trim(s)[0]) && !is_space(trim(s).last()),
        trim(trim(s)) == trim(s),
{
    let t = s.skip(run(Class::Space, s) as int);
    lemma_run_all(Class::Space, s);
    lemma_trim_end(t);
    if trim(s).len() > 0 {
        assert(trim(s)[0] == t[0]);
    }
    lemma_trim_none(trim(s));
}

/// What is in a trimmed text is in the text.
pub proof fn lemma_trim_within(s: Seq<char>, c: char)
    requires
        trim(s).contains(c),
    ensures
        s.contains(c),
{
    let n = run(Class::Space, s);
    lemma_run_len(Class::Space, s);
    let t = s.skip(n as int);
    lemma_trim_end(t);
    let i = choose|i: int| 0 <= i < trim(s).len() && trim(s)[i] == c;
    assert(s[i + n] == c);
}

/// The first mark is where nothing before it is a mark.
pub proof fn lemma_first_of_all(s: Seq<char>, marks: Seq<char>)
    ensures
        first_of(s, marks) <= s.len(),
        forall|i: int| 0 <= i < first_of(s, marks) ==> !marks.contains(#[trigger] s[i]),
        first_of(s, marks) < s.len() ==> marks.contains(s[first_of(s, marks) as int]),
    decreases s.len(),
{
    if s.len() > 0 && !marks.contains(s[0]) {
        lemma_first_of_all(s.skip(1), marks);
        assert forall|i: int| 0 <= i < first_of(s, marks) implies !marks.contains(
            #[trigger] s[i],
        ) by {
            if i > 0 {
                assert(s[i] == s.skip(1)[i - 1]);
            }
        }
    }
}

/// The parts of a split text hold no mark.
pub proof fn lemma_split_parts(s: Seq<char>, marks: Seq<char>)
    ensures
        split(s, marks).len() > 0,
        forall|i: int, j: int|
            0 <= i < split(s, marks).len() && 0 <= j < split(s, marks)[i].len()
                ==> !marks.contains(#[trigger] split(s, marks)[i][j]),
    decreases s.len(),
{
    let n = first_of(s, marks);
    lemma_first_of_all(s, marks);
    if n < s.len() {
        let rest = s.skip(n as int + 1);
        lemma_split_parts(rest, marks);
        let parts = split(s, marks);
        assert forall|i: int, j: int|
            0 <= i < parts.len() && 0 <= j < parts[i].len() implies !marks.contains(
            #[trigger] parts[i][j],
        ) by {
            if i > 0 {
                assert(parts[i] == split(rest, marks)[i - 1]);
            } else {
                assert(parts[i][j] == s[j]);
            }
        }
    }
}

/// The place of a last mark: nothing after it is the mark.
pub proof fn lemma_last_of(a: Seq<char>, mark: char, b: Seq<char>)
    requires
        !b.contains(mark),
    ensures
        last_of(a.push(mark) + b, mark) == Some(a.len()),
    decreases b.len(),
{
    let s = a.push(mark) + b;
    if b.len() == 0 {
        assert(s.last() == mark);
    } else {
        assert(b.contains(b.last()));
        assert(s.last() == b.last());
        assert(s.drop_last() =~= a.push(mark) + b.drop_last());
        if b.drop_last().contains(mark) {
            let i = choose|i: int| 0 <= i < b.drop_last().len() && b.drop_last()[i] == mark;
            assert(b[i] == mark);
        }
        lemma_last_of(a, mark, b.drop_last());
    }
}

/// A text without the mark has no last mark.
pub proof fn lemma_last_of_none(s: Seq<char>, mark: char)
    requires
        !s.contains(mark),
    ensures
        last_of(s, mark) is None,
    decreases s.len(),
{
    if s.len() > 0 {
        assert(s.contains(s.last()));
        if s.drop_last().contains(mark) {
            let i = choose|i: int| 0 <= i < s.drop_last().len() && s.drop_last()[i] == mark;
            assert(s[i] == mark);
        }
        lemma_last_of_none(s.drop_last(), mark);
    }
}

/// What is in joined parts is in one of them or in the glue.
pub proof fn lemma_join_within(parts: Seq<Seq<char>>, glue: Seq<char>, c: char)
    requires
        join(parts, glue).contains(c),
    ensures
        glue.contains(c) || exists|i: int| 0 <= i < parts.len() && (#[trigger] parts[i]).contains(c),
    decreases parts.len(),
{
    if parts.len() == 1 {
        assert(parts[0].contains(c));
    } else if parts.len() > 1 {
        let s = join(parts, glue);
        let p = parts[0];
        let rest = parts.skip(1);
        let k = choose|k: int| 0 <= k < s.len() && s[k] == c;
        if k < p.len() {
            assert(p[k] == c);
            assert(parts[0].contains(c));
        } else if k < p.len() + glue.len() {
            assert(glue[k - p.len()] == c);
        } else {
            assert(join(rest, glue)[k - p.len() - glue.len()] == c);
            lemma_join_within(rest, glue, c);
            if !glue.contains(c) {
                let i = choose|i: int| 0 <= i < rest.len() && (#[trigger] rest[i]).contains(c);
                assert(parts[i + 1].contains(c));
            }
        }
    }
}

} // verus!
