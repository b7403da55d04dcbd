//! Names of projects and of extras.

use vstd::prelude::*;

use crate::chars;
use crate::outside;
use crate::text::{self, Class};

verus! {

/// A character of a name with dots and underscores as dashes.
pub open spec fn dashed(c: char) -> char {
    if c == '_' || c == '.' {
        '-'
    } else {
        c
    }
}

/// A text with dots and underscores as dashes.
pub open spec fn dashed_text(s: Seq<char>) -> Seq<char> {
    s.map_values(|c: char| dashed(c))
}

/// A text with one dash in place of several in a row.
pub open spec fn squeezed(s: Seq<char>) -> Seq<char>
    decreases s.len(),
{
    if s.len() == 0 {
        s
    } else if s.len() >= 2 && s.last() == '-' && s[s.len() - 2] == '-' {
        squeezed(s.drop_last())
    } else {
        squeezed(s.drop_last()).push(s.last())
    }
}

/// The normalized form of a name: in lower case, with a dash in place of each row of dashes,
/// dots and underscores.
pub open spec fn canonical_name(s: Seq<char>) -> Seq<char> {
    squeezed(dashed_text(outside::lowercase(s)))
}

/// A lower-case letter of ASCII or a digit.
pub open spec fn is_plain(c: char) -> bool {
    text::in_class(Class::LowerLabel, c)
}

/// Whether a name is in normalized form: lower-case letters, digits and dashes, with a letter
/// or digit at either end. Two dashes in a row are let through directly behind the first
/// character, and nowhere else.
pub open spec fn is_normalized(s: Seq<char>) -> bool {
    &&& s.len() > 0
    &&& is_plain(s[0])
    &&& is_plain(s.last())
    &&& forall|i: int| 0 <= i < s.len() ==> is_plain(#[trigger] s[i]) || s[i] == '-'
    &&& forall|i: int| 1 < i < s.len() - 1 ==> !(#[trigger] s[i] == '-' && s[i + 1] == '-')
}

/// The normalized form of a name.
pub fn canonicalize_name(name: &str) -> (r: String)
    ensures
        r@ == canonical_name(name@),
{
    let low = outside::to_lowercase(name);
    let ghost all = dashed_text(low@);
    let mut out = String::new();
    let mut last = ' ';
    let mut i: usize = 0;
    assert(out@ =~= squeezed(all.take(0)));
    while i < low.len()
        invariant
            i <= low@.len(),
            all == dashed_text(low@),
            out@ == squeezed(all.take(i as int)),
            i == 0 ==> last == ' ',
            i > 0 ==> last == all[i - 1],
        decreases low@.len() - i,
    {
        let c = if low[i] == '_' || low[i] == '.' {
            '-'
        } else {
            low[i]
        };
        proof {
            let t = all.take(i + 1);
            assert(t.drop_last() =~= all.take(i as int));
            assert(t.last() == c);
            if i > 0 {
                assert(t[t.len() - 2] == last);
            }
        }
        if !(c == '-' && last == '-') {
            out.push(c);
        }
        last = c;
        i += 1;
    }
    assert(all.take(i as int) =~= all);
    out
}

/// Whether a name is in normalized form.
pub fn is_normalized_name(name: &str) -> (r: bool)
    ensures
        r == is_normalized(name@),
{
    let s = chars::chars_of(name);
    if s.len() == 0 || !chars::in_class(&Class::LowerLabel, s[0]) || !chars::in_class(
        &Class::LowerLabel,
        s[s.len() - 1],
    ) {
        return false;
    }
    let mut i: usize = 0;
    while i < s.len()
        invariant
            i <= s@.len(),
            s@ == name@,
            forall|j: int| 0 <= j < i ==> is_plain(#[trigger] s@[j]) || s@[j] == '-',
            forall|j: int|
                1 < j < i && j < s@.len() - 1 ==> !(#[trigger] s@[j] == '-' && s@[j + 1] == '-'),
        decreases s@.len() - i,
    {
        if !chars::in_class(&Class::LowerLabel, s[i]) && s[i] != '-' {
            assert(!(is_plain(name@[i as int]) || name@[i as int] == '-'));
            return false;
        }
        if i > 1 && i < s.len() - 1 && s[i] == '-' && s[i + 1] == '-' {
            assert(name@[i as int] == '-' && name@[i + 1] == '-');
            return false;
        }
        i += 1;
    }
    true
}

// --- Laws. ---

/// Whether there are two dashes in a row anywhere.
pub open spec fn has_double_dash(s: Seq<char>) -> bool {
    exists|i: int| 0 <= i < s.len() - 1 && #[trigger] s[i] == '-' && s[i + 1] == '-'
}

proof fn lemma_squeezed(s: Seq<char>)
    ensures
        !has_double_dash(squeezed(s)),
        s.len() > 0 ==> squeezed(s).len() > 0 && squeezed(s).last() == s.last() && squeezed(s)[0]
            == s[0],
        forall|i: int| 0 <= i < squeezed(s).len() ==> s.contains(#[trigger] squeezed(s)[i]),
    decreases s.len(),
{
    if s.len() > 0 {
        let t = s.drop_last();
        let q = squeezed(t);
        let r = squeezed(s);
        lemma_squeezed(t);
        assert forall|i: int| 0 <= i < r.len() implies s.contains(#[trigger] r[i]) by {
            if i < q.len() {
                assert(t.contains(q[i]));
                let k = choose|k: int| 0 <= k < t.len() && t[k] == q[i];
                assert(s[k] == r[i]);
            } else {
                assert(s[s.len() - 1] == r[i]);
            }
        }
        if has_double_dash(r) {
            let i = choose|i: int| 0 <= i < r.len() - 1 && #[trigger] r[i] == '-' && r[i + 1] == '-';
            if i < q.len() - 1 {
                assert(q[i] == '-' && q[i + 1] == '-');
            } else {
                assert(q.last() == t.last());
            }
        }
    }
}

/// A normalized name holds no dots, no underscores and no two dashes in a row.
pub proof fn law_canonical_shape(s: Seq<char>)
    ensures
        !has_double_dash(canonical_name(s)),
        !canonical_name(s).contains('_'),
        !canonical_name(s).contains('.'),
{
    let d = dashed_text(outside::lowercase(s));
    let r = canonical_name(s);
    lemma_squeezed(d);
    if r.contains('_') || r.contains('.') {
        let i = choose|i: int| 0 <= i < r.len() && (r[i] == '_' || r[i] == '.');
        assert(d.contains(r[i]));
        let k = choose|k: int| 0 <= k < d.len() && d[k] == r[i];
    }
}

proof fn lemma_squeezed_again(s: Seq<char>)
    requires
        !has_double_dash(s),
    ensures
        squeezed(s) == s,
    decreases s.len(),
{
    if s.len() > 0 {
        let t = s.drop_last();
        if has_double_dash(t) {
            let i = choose|i: int| 0 <= i < t.len() - 1 && #[trigger] t[i] == '-' && t[i + 1] == '-';
            assert(s[i] == '-' && s[i + 1] == '-');
        }
        if s.len() >= 2 {
            assert(!(s[s.len() - 2] == '-' && s[s.len() - 2 + 1] == '-'));
        }
        lemma_squeezed_again(t);
        assert(t.push(s.last()) =~= s);
    }
}

/// What a name of ASCII characters is made of once it is normalized.
proof fn lemma_canonical_chars(s: Seq<char>, c: char)
    requires
        text::is_ascii(s),
        canonical_name(s).contains(c),
    ensures
        (c as u32) < 128,
        text::lower(c) == c,
        exists|i: int| 0 <= i < s.len() && c == dashed(text::lower(#[trigger] s[i])),
{
    let d = dashed_text(outside::lowercase(s));
    lemma_squeezed(d);
    let r = canonical_name(s);
    let i = choose|i: int| 0 <= i < r.len() && r[i] == c;
    assert(d.contains(r[i]));
    let k = choose|k: int| 0 <= k < d.len() && d[k] == c;
    assert((s[k] as u32) < 128);
    assert(c == dashed(text::lower(s[k])));
}

/// Whether the normalized form of a name is in lower case. Beyond ASCII the lower case of a
/// text need not be its own lower case.
pub open spec fn settles(s: Seq<char>) -> bool {
    outside::lowercase(canonical_name(s)) == canonical_name(s)
}

/// The normalized form of a name of ASCII characters is in lower case.
pub proof fn law_ascii_settles(s: Seq<char>)
    requires
        text::is_ascii(s),
    ensures
        settles(s),
{
    let r = canonical_name(s);
    assert forall|i: int| 0 <= i < r.len() implies (#[trigger] r[i] as u32) < 128 && text::lower(
        r[i],
    ) == r[i] by {
        assert(r.contains(r[i]));
        lemma_canonical_chars(s, r[i]);
    }
    assert(text::is_ascii(r));
    assert(text::lower_text(r) =~= r);
}

/// Normalizing a name again changes nothing, where its normalized form is in lower case.
pub proof fn law_canonical_again(s: Seq<char>)
    requires
        settles(s),
    ensures
        canonical_name(canonical_name(s)) == canonical_name(s),
{
    let r = canonical_name(s);
    law_canonical_shape(s);
    assert forall|i: int| 0 <= i < r.len() implies dashed(#[trigger] r[i]) == r[i] by {
        assert(r.contains(r[i]));
    }
    assert(dashed_text(r) =~= r);
    lemma_squeezed_again(r);
}

/// Names that differ only in case and in which separators they use have the same normalized
/// form, for names of ASCII characters.
pub proof fn law_canonical_same(a: Seq<char>, b: Seq<char>)
    requires
        text::is_ascii(a),
        text::is_ascii(b),
        a.len() == b.len(),
        forall|i: int|
            0 <= i < a.len() ==> dashed(text::lower(#[trigger] a[i])) == dashed(text::lower(b[i])),
    ensures
        canonical_name(a) == canonical_name(b),
{
    assert(dashed_text(outside::lowercase(a)) =~= dashed_text(outside::lowercase(b)));
}

/// A letter or digit of ASCII.
pub open spec fn is_letter_or_digit(c: char) -> bool {
    text::in_class(Class::Name, c) && !text::is_separator(c)
}

/// The normalized form of a name is in normalized form. A name begins and ends with a letter
/// or digit and holds those, dots, underscores and dashes.
pub proof fn law_canonical_normalized(s: Seq<char>)
    requires
        s.len() > 0,
        is_letter_or_digit(s[0]),
        is_letter_or_digit(s.last()),
        text::all_in(Class::Name, s),
    ensures
        is_normalized(canonical_name(s)),
{
    assert(text::is_ascii(s)) by {
        assert forall|i: int| 0 <= i < s.len() implies (#[trigger] s[i] as u32) < 128 by {
            assert(text::in_class(Class::Name, s[i]));
        }
    }
    let d = dashed_text(outside::lowercase(s));
    let r = canonical_name(s);
    lemma_squeezed(d);
    assert(r[0] == dashed(text::lower(s[0])));
    assert(r.last() == dashed(text::lower(s.last())));
    assert forall|i: int| 0 <= i < r.len() implies is_plain(#[trigger] r[i]) || r[i] == '-' by {
        assert(r.contains(r[i]));
        lemma_canonical_chars(s, r[i]);
        let k = choose|k: int| 0 <= k < s.len() && r[i] == dashed(text::lower(#[trigger] s[k]));
        assert(text::in_class(Class::Name, s[k]));
    }
    assert forall|i: int| 1 < i < r.len() - 1 implies !(#[trigger] r[i] == '-' && r[i + 1]
        == '-') by {
        if r[i] == '-' && r[i + 1] == '-' {
            assert(has_double_dash(r));
        }
    }
}

// --- What normalizing does. ---

proof fn lemma_squeezed_add(a: Seq<char>, n: nat, b: Seq<char>)
    requires
        n > 0,
        a.len() > 0 ==> a.last() != '-',
        b.len() > 0 ==> b[0] != '-',
    ensures
        squeezed(a + Seq::new(n, |i: int| '-') + b) == squeezed(a) + seq!['-'] + squeezed(b),
    decreases n + b.len(),
{
    let d = Seq::new(n, |i: int| '-');
    let s = a + d + b;
    if b.len() > 0 {
        let c = b.drop_last();
        lemma_squeezed_add(a, n, c);
        assert(s.drop_last() =~= a + d + c);
        assert(s.last() == b.last());
        if b.len() >= 2 {
            assert(s[s.len() - 2] == b[b.len() - 2]);
        } else {
            assert(b.last() == b[0]);
        }
        let q = squeezed(a) + seq!['-'];
        assert(q + squeezed(c).push(b.last()) =~= (q + squeezed(c)).push(b.last()));
    } else if n > 1 {
        let m = (n - 1) as nat;
        lemma_squeezed_add(a, m, b);
        assert(s.drop_last() =~= a + Seq::new(m, |i: int| '-') + b);
        assert(s.last() == '-' && s[s.len() - 2] == '-');
    } else {
        assert(s.drop_last() =~= a);
        assert(s.last() == '-');
        if a.len() > 0 {
            assert(s[s.len() - 2] == a.last());
        }
        assert(squeezed(b) =~= Seq::<char>::empty());
        assert(squeezed(a).push('-') =~= squeezed(a) + seq!['-'] + squeezed(b));
    }
}

/// A name of ASCII characters without dashes, dots and underscores is only put in lower case.
pub proof fn law_canonical_word(s: Seq<char>)
    requires
        text::is_ascii(s),
        forall|i: int| 0 <= i < s.len() ==> #[trigger] s[i] != '-' && s[i] != '.' && s[i] != '_',
    ensures
        canonical_name(s).len() == s.len(),
        forall|i: int|
            0 <= i < s.len() ==> #[trigger] canonical_name(s)[i] == if 'A' <= s[i] <= 'Z' {
                ((s[i] as u32) + 32) as char
            } else {
                s[i]
            },
{
    let l = text::lower_text(s);
    assert forall|i: int| 0 <= i < l.len() implies dashed(#[trigger] l[i]) == l[i] && l[i] != '-' by {
        assert((s[i] as u32) < 128);
    }
    assert(dashed_text(l) =~= l);
    if has_double_dash(l) {
        let i = choose|i: int| 0 <= i < l.len() - 1 && #[trigger] l[i] == '-' && l[i + 1] == '-';
        assert(l[i] != '-');
    }
    lemma_squeezed_again(l);
}

/// A row of dashes, dots and underscores in a name of ASCII characters becomes one dash, and what
/// stands before and behind it is normalized by itself.
pub proof fn law_canonical_row(a: Seq<char>, row: Seq<char>, b: Seq<char>)
    requires
        text::is_ascii(a),
        text::is_ascii(b),
        row.len() > 0,
        forall|i: int|
            0 <= i < row.len() ==> #[trigger] row[i] == '-' || row[i] == '.' || row[i] == '_',
        a.len() > 0 ==> a.last() != '-' && a.last() != '.' && a.last() != '_',
        b.len() > 0 ==> b[0] != '-' && b[0] != '.' && b[0] != '_',
    ensures
        canonical_name(a + row + b) == canonical_name(a) + "-"@ + canonical_name(b),
{
    reveal_strlit("-");
    let s = a + row + b;
    assert(text::is_ascii(s)) by {
        assert forall|i: int| 0 <= i < s.len() implies (#[trigger] s[i] as u32) < 128 by {
            if i < a.len() {
                assert(s[i] == a[i]);
            } else if i < a.len() + row.len() {
                assert(s[i] == row[i - a.len()]);
            } else {
                assert(s[i] == b[i - a.len() - row.len()]);
            }
        }
    }
    let d = Seq::new(row.len(), |i: int| '-');
    let x = dashed_text(text::lower_text(a));
    let y = dashed_text(text::lower_text(b));
    assert(dashed_text(text::lower_text(s)) =~= x + d + y) by {
        let z = dashed_text(text::lower_text(s));
        assert forall|i: int| 0 <= i < z.len() implies z[i] == (x + d + y)[i] by {
            if i < a.len() {
                assert(s[i] == a[i]);
            } else if i < a.len() + row.len() {
                assert(s[i] == row[i - a.len()]);
            } else {
                assert(s[i] == b[i - a.len() - row.len()]);
            }
        }
    }
    if a.len() > 0 {
        assert((a[a.len() - 1] as u32) < 128);
    }
    if b.len() > 0 {
        assert((b[0] as u32) < 128);
    }
    lemma_squeezed_add(x, row.len(), y);
    assert("-"@ =~= seq!['-']);
}

/// A name in normalized form without two dashes in a row is its own normalized form. It holds
/// lower-case letters, digits and dashes, with a dash at neither end.
pub proof fn law_normalized(s: Seq<char>)
    requires
        is_normalized(s),
    ensures
        s.len() > 0,
        s[0] != '-' && s.last() != '-',
        forall|i: int|
            0 <= i < s.len() ==> 'a' <= #[trigger] s[i] <= 'z' || '0' <= s[i] <= '9' || s[i] == '-',
        (forall|i: int| 0 <= i < s.len() - 1 ==> !(#[trigger] s[i] == '-' && s[i + 1] == '-'))
            ==> canonical_name(s) == s,
{
    assert forall|i: int| 0 <= i < s.len() implies 'a' <= #[trigger] s[i] <= 'z' || '0' <= s[i]
        <= '9' || s[i] == '-' by {
        assert(is_plain(s[i]) || s[i] == '-');
    }
    if forall|i: int| 0 <= i < s.len() - 1 ==> !(#[trigger] s[i] == '-' && s[i + 1] == '-') {
        assert(text::is_ascii(s));
        assert(text::lower_text(s) =~= s);
        assert(dashed_text(s) =~= s);
        lemma_squeezed_again(s);
    }
}

/// Names of lower-case letters, digits and single dashes, with a letter or digit at either end,
/// are in normalized form. Two dashes in a row keep a name in it only directly behind its first
/// character.
pub proof fn law_normalized_dashes(s: Seq<char>, rest: Seq<char>)
    requires
        s.len() > 0,
        is_plain(s[0]),
        is_plain(s.last()),
        rest.len() > 0,
        is_plain(rest[0]),
        is_plain(rest.last()),
        forall|i: int| 0 <= i < s.len() ==> is_plain(#[trigger] s[i]) || s[i] == '-',
        forall|i: int| 0 <= i < rest.len() ==> is_plain(#[trigger] rest[i]) || rest[i] == '-',
        forall|i: int| 0 <= i < s.len() - 1 ==> !(#[trigger] s[i] == '-' && s[i + 1] == '-'),
        forall|i: int| 0 <= i < rest.len() - 1 ==> !(#[trigger] rest[i] == '-' && rest[i + 1] == '-'),
    ensures
        is_normalized(s),
        is_normalized(s + "-"@ + rest),
        is_normalized(s + "--"@ + rest) <==> s.len() == 1,
        !is_normalized(s + "---"@ + rest),
{
    reveal_strlit("-");
    reveal_strlit("--");
    reveal_strlit("---");
    let (a, b, c) = (s + "-"@ + rest, s + "--"@ + rest, s + "---"@ + rest);
    let n = s.len() as int;
    assert(c[n] == '-' && c[n + 1] == '-' && c[n + 2] == '-');
    assert(b[n] == '-' && b[n + 1] == '-');
    assert(c[n + 1] == '-' && c[n + 1 + 1] == '-');
    assert forall|i: int| 0 <= i < a.len() implies is_plain(#[trigger] a[i]) || a[i] == '-' by {
        if i < n {
            assert(a[i] == s[i]);
        } else if i > n {
            assert(a[i] == rest[i - n - 1]);
        }
    }
    assert forall|i: int| 0 <= i < b.len() implies is_plain(#[trigger] b[i]) || b[i] == '-' by {
        if i < n {
            assert(b[i] == s[i]);
        } else if i > n + 1 {
            assert(b[i] == rest[i - n - 2]);
        }
    }
    assert forall|i: int| 1 < i < a.len() - 1 implies !(#[trigger] a[i] == '-' && a[i + 1] == '-') by {
        if i < n {
            assert(a[i] == s[i]);
            if i + 1 < n {
                assert(a[i + 1] == s[i + 1]);
            }
        } else if i == n {
            assert(a[i + 1] == rest[0]);
        } else {
            assert(a[i] == rest[i - n - 1]);
            assert(a[i + 1] == rest[i - n - 1 + 1]);
        }
    }
    if n == 1 {
        assert forall|i: int| 1 < i < b.len() - 1 implies !(#[trigger] b[i] == '-' && b[i + 1]
            == '-') by {
            if i == 2 {
                assert(b[3] == rest[0]);
            } else {
                assert(b[i] == rest[i - 3]);
                assert(b[i + 1] == rest[i - 3 + 1]);
            }
        }
    }
}

} // verus!
