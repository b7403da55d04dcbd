//! What the crate takes from outside: the Unicode tables of `regex` and of the standard
//! library, the quoting of strings, and look-ups in hashed collections of strings.

use std::collections::{HashMap, HashSet};
use std::hash::{Hash, Hasher};

use vstd::prelude::*;

use crate::chars;
use crate::text;

verus! {

// --- Words. ---

/// Whether the class `\w` of `regex` holds a character.
pub uninterp spec fn unicode_word(c: char) -> bool;

/// `regex::Regex::is_match` for the pattern of a single word character. The class `\w` is
/// made of Unicode tables; the contract gives its answer a name.
#[verifier::external_body]
fn regex_word(c: char) -> (r: bool)
    ensures
        r == unicode_word(c),
{
    regex::Regex::new(r"\A\w\z").expect("the pattern is well formed").is_match(&c.to_string())
}

/// A word character: a letter, a digit or an underscore of ASCII, or what Unicode counts as
/// one.
pub open spec fn is_word(c: char) -> bool {
    if (c as u32) < 128 {
        text::is_digit(c) || 'a' <= text::lower(c) <= 'z' || c == '_'
    } else {
        unicode_word(c)
    }
}

/// Whether `c` is a word character.
pub fn is_word_char(c: char) -> (r: bool)
    ensures
        r == is_word(c),
{
    if (c as u32) < 128 {
        let f = chars::lower(c);
        chars::is_digit(c) || ('a' <= f && f <= 'z') || c == '_'
    } else {
        regex_word(c)
    }
}

// --- Case. ---

/// The lower case of a text, by the tables of Unicode.
pub uninterp spec fn unicode_lowercase(s: Seq<char>) -> Seq<char>;

/// `str::to_lowercase`. Its result follows Unicode tables and, for one letter, the letters
/// around it; the contract gives it a name.
#[verifier::external_body]
fn std_lowercase(s: &str) -> (r: String)
    ensures
        r@ == unicode_lowercase(s@),
{
    s.to_lowercase()
}

/// A text in lower case. Within ASCII this is the lower case of each letter.
pub open spec fn lowercase(s: Seq<char>) -> Seq<char> {
    if text::is_ascii(s) {
        text::lower_text(s)
    } else {
        unicode_lowercase(s)
    }
}

/// The text in lower case.
pub fn to_lowercase(s: &str) -> (r: Vec<char>)
    ensures
        r@ == lowercase(s@),
{
    let t = chars::chars_of(s);
    if chars::is_ascii(&t) {
        chars::lower_text(&t)
    } else {
        chars::chars_of(&std_lowercase(s))
    }
}

// --- Quoting. ---

/// A text between double quotes, with the escapes that the standard library writes.
pub uninterp spec fn quoted(s: Seq<char>) -> Seq<char>;

/// The `Debug` form of a string. Which characters it escapes follows Unicode tables; the
/// contract gives the result a name.
#[verifier::external_body]
pub(crate) fn quote(s: &str) -> (r: String)
    ensures
        r@ == quoted(s@),
{
    format!("{:?}", s)
}

// --- Characters from numbers. ---

/// Whether a number is a Unicode scalar value.
pub open spec fn is_scalar(n: u32) -> bool {
    n < 0xd800 || 0xe000 <= n <= 0x10ffff
}

/// `char::from_u32` gives the character of a scalar value, and nothing for another number.
pub assume_specification[ char::from_u32 ](n: u32) -> (r: Option<char>)
    ensures
        is_scalar(n) ==> r == Some(n as char),
        !is_scalar(n) ==> r is None,
;

// --- Hashing. ---

/// `<String as Hash>::hash` feeds a string to a hasher. Nothing is claimed of the hasher's
/// state.
pub assume_specification<H: Hasher>[ <std::string::String as Hash>::hash ](
    s: &std::string::String,
    state: &mut H,
)
;

// --- Collections of strings. ---

/// Whether a map has a key with the given text.
pub open spec fn has_key<V>(m: Map<String, V>, key: Seq<char>) -> bool {
    exists|k: String| #[trigger] m.contains_key(k) && k@ == key
}

/// The value that a map holds for the given text.
pub open spec fn value_of<V>(m: Map<String, V>, key: Seq<char>) -> V {
    m[choose|k: String| #[trigger] m.contains_key(k) && k@ == key]
}

/// `HashMap::get` on a map with strings as keys: the value of the key that has the given text,
/// of which there is at most one.
#[verifier::external_body]
pub(crate) fn lookup<'a, V>(m: &'a HashMap<String, V>, key: &str) -> (r: Option<&'a V>)
    ensures
        r is Some <==> has_key(m@, key@),
        r matches Some(v) ==> *v == value_of(m@, key@),
{
    m.get(key)
}

/// The texts of the strings in a set.
pub open spec fn texts(s: Set<String>) -> Set<Seq<char>> {
    Set::new(|t: Seq<char>| exists|x: String| #[trigger] s.contains(x) && x@ == t)
}

/// `Vec::from_iter` on a set of strings: its members, in an order that is left open.
#[verifier::external_body]
pub(crate) fn members<'a>(s: &'a HashSet<String>) -> (r: Vec<&'a String>)
    ensures
        forall|t: Seq<char>| #[trigger]
            texts(s@).contains(t) <==> exists|i: int| 0 <= i < r@.len() && r@[i]@ == t,
{
    Vec::from_iter(s)
}

/// `HashSet::clone` on a set of strings: a set with the same texts.
#[verifier::external_body]
pub(crate) fn copy_set(s: &HashSet<String>) -> (r: HashSet<String>)
    ensures
        texts(r@) == texts(s@),
{
    s.clone()
}

} // verus!
