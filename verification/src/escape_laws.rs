//! Laws of the escapes in the quoted texts of markers.

use vstd::prelude::*;

use crate::marker_grammar;
use crate::text;

verus! {

/// A text behind another that was read, if there is one.
pub open spec fn behind(a: Seq<char>, b: Option<Seq<char>>) -> Option<Seq<char>> {
    match b {
        Some(t) => Some(a + t),
        None => None,
    }
}

/// What an escape of one character stands for.
pub open spec fn simple(c: char) -> Option<Seq<char>> {
    if c == '\\' {
        Some(seq!['\\'])
    } else if c == '\'' {
        Some(seq!['\''])
    } else if c == '"' {
        Some(seq!['"'])
    } else if c == 'a' {
        Some(seq!['\u{7}'])
    } else if c == 'b' {
        Some(seq!['\u{8}'])
    } else if c == 't' {
        Some(seq!['\u{9}'])
    } else if c == 'n' {
        Some(seq!['\u{a}'])
    } else if c == 'v' {
        Some(seq!['\u{b}'])
    } else if c == 'f' {
        Some(seq!['\u{c}'])
    } else if c == 'r' {
        Some(seq!['\u{d}'])
    } else if c == '\u{a}' {
        Some(Seq::empty())
    } else {
        None
    }
}

/// Whether a character begins an escape with a number.
pub open spec fn begins_number(c: char) -> bool {
    '0' <= c <= '7' || c == 'x' || c == 'u' || c == 'U'
}

/// A text without backslashes stands for itself, and one before an escape stays.
pub proof fn law_plain(c: char, rest: Seq<char>)
    requires
        c != '\\',
    ensures
        marker_grammar::unescape(Seq::empty()) == Some(Seq::<char>::empty()),
        marker_grammar::unescape(seq![c] + rest) == behind(
            seq![c],
            marker_grammar::unescape(rest),
        ),
{
    let s = seq![c] + rest;
    assert(s.skip(1) =~= rest);
    assert(s[0] == c);
}

/// A backslash and a character stand for what the character says. Where it says nothing, both
/// stay; `\N` and a backslash at the end stand for nothing.
pub proof fn law_simple(c: char, rest: Seq<char>)
    ensures
        simple(c) is Some ==> marker_grammar::unescape(seq!['\\', c] + rest) == behind(
            simple(c).unwrap(),
            marker_grammar::unescape(rest),
        ),
        simple(c) is None && !begins_number(c) && c != 'N' ==> marker_grammar::unescape(
            seq!['\\', c] + rest,
        ) == behind(seq!['\\', c], marker_grammar::unescape(rest)),
        c == 'N' ==> marker_grammar::unescape(seq!['\\', c] + rest) is None,
        marker_grammar::unescape(seq!['\\']) is None,
{
    let s = seq!['\\', c] + rest;
    assert(text::after(s, 2) =~= rest);
    assert(s[0] == '\\' && s[1] == c);
    assert(seq!['\\'][0] == '\\');
}

/// A digit of base eight or sixteen, and what it stands for.
pub open spec fn is_base_digit(base: nat, c: char) -> bool {
    if base == 8 {
        '0' <= c <= '7'
    } else {
        '0' <= c <= '9' || 'a' <= c <= 'f' || 'A' <= c <= 'F'
    }
}

/// Whether all of a text is digits of a base.
pub open spec fn all_digits(base: nat, d: Seq<char>) -> bool {
    forall|i: int| 0 <= i < d.len() ==> is_base_digit(base, #[trigger] d[i])
}

proof fn lemma_digits_len(base: nat, d: Seq<char>, rest: Seq<char>, most: nat)
    requires
        base == 8 || base == 16,
        all_digits(base, d),
        d.len() <= most,
        d.len() < most && rest.len() > 0 ==> !is_base_digit(base, rest[0]),
    ensures
        marker_grammar::digits_len(base, d + rest, most) == d.len(),
    decreases d.len(),
{
    let s = d + rest;
    if d.len() > 0 {
        assert(is_base_digit(base, d[0]));
        assert(s[0] == d[0]);
        let e = d.skip(1);
        assert forall|i: int| 0 <= i < e.len() implies is_base_digit(base, #[trigger] e[i]) by {
            assert(e[i] == d[i + 1]);
        }
        assert(s.skip(1) =~= e + rest);
        lemma_digits_len(base, e, rest, (most - 1) as nat);
    } else {
        assert(s =~= rest);
    }
}

/// The number that digits say: each counts as many times as the base what the next one counts.
/// Capitals and small letters count the same.
pub proof fn law_digits(base: nat, d: Seq<char>, c: char, n: nat)
    requires
        base == 8 || base == 16,
        is_base_digit(base, c),
        n == if '0' <= c <= '9' {
            c as int - '0' as int
        } else if 'a' <= c <= 'f' {
            c as int - 'a' as int + 10
        } else {
            c as int - 'A' as int + 10
        },
    ensures
        marker_grammar::number_of(base, Seq::empty()) == 0,
        marker_grammar::number_of(base, d.push(c)) == marker_grammar::number_of(base, d) * base + n,
{
    assert(d.push(c).drop_last() =~= d);
    assert(d.push(c).last() == c);
}

/// One to three digits of base eight stand for the character with that number.
pub proof fn law_octal(d: Seq<char>, rest: Seq<char>)
    requires
        0 < d.len() <= 3,
        all_digits(8, d),
        d.len() < 3 && rest.len() > 0 ==> !is_base_digit(8, rest[0]),
    ensures
        marker_grammar::unescape(seq!['\\'] + d + rest) == (match marker_grammar::char_of(
            marker_grammar::number_of(8, d),
        ) {
            Some(c) => behind(seq![c], marker_grammar::unescape(rest)),
            None => None,
        }),
{
    let s = seq!['\\'] + d + rest;
    assert(is_base_digit(8, d[0]));
    assert(s[0] == '\\' && s[1] == d[0]);
    assert(text::after(s, 1) =~= d + rest);
    lemma_digits_len(8, d, rest, 3);
    assert(text::head(d + rest, d.len()) =~= d);
    assert(text::after(s, 1 + d.len()) =~= rest);
}

/// `\x`, `\u` and `\U` take two, four and eight digits of base sixteen, which stand for the
/// character with that number. With fewer digits, or where there is no such character, they
/// stand for nothing.
pub proof fn law_hexadecimal(c: char, d: Seq<char>, rest: Seq<char>)
    requires
        c == 'x' || c == 'u' || c == 'U',
        all_digits(16, d),
        ({
            let n = if c == 'x' {
                2nat
            } else if c == 'u' {
                4nat
            } else {
                8nat
            };
            d.len() == n || (d.len() < n && (rest.len() > 0 ==> !is_base_digit(16, rest[0])))
        }),
    ensures
        ({
            let n = if c == 'x' {
                2nat
            } else if c == 'u' {
                4nat
            } else {
                8nat
            };
            marker_grammar::unescape(seq!['\\', c] + d + rest) == if d.len() < n {
                None
            } else {
                match marker_grammar::char_of(marker_grammar::number_of(16, d)) {
                    Some(x) => behind(seq![x], marker_grammar::unescape(rest)),
                    None => None,
                }
            }
        }),
{
    let n = if c == 'x' {
        2nat
    } else if c == 'u' {
        4nat
    } else {
        8nat
    };
    let s = seq!['\\', c] + d + rest;
    assert(s[0] == '\\' && s[1] == c);
    assert(text::after(s, 2) =~= d + rest);
    lemma_digits_len(16, d, rest, n);
    assert(text::head(d + rest, d.len()) =~= d);
    if d.len() == n {
        assert(text::after(s, 2 + n) =~= rest);
    }
}

/// The numbers that have characters are those up to 10FFFF but for the surrogates.
pub proof fn law_characters(n: nat)
    ensures
        marker_grammar::char_of(n) is Some <==> n < 0xd800 || 0xdfff < n <= 0x10ffff,
        marker_grammar::char_of(n) matches Some(c) ==> c as int == n,
{
}

} // verus!
