//! Lists of texts as sets: in order, each text once.

use vstd::prelude::*;

use crate::chars;
use crate::order::{self, Sign};
use crate::text;

verus! {

/// Strings as texts.
pub open spec fn texts(l: Seq<String>) -> Seq<Seq<char>> {
    l.map_values(|t: String| t@)
}

/// Whether texts are in order, each once.
pub open spec fn ascending(l: Seq<Seq<char>>) -> bool {
    forall|i: int, j: int|
        0 <= i < j < l.len() ==> order::compare_text(#[trigger] l[i], #[trigger] l[j]) < 0
}

/// Whether two lists hold the same texts.
pub open spec fn same_members(a: Seq<Seq<char>>, b: Seq<Seq<char>>) -> bool {
    forall|t: Seq<char>| #[trigger] a.contains(t) <==> b.contains(t)
}

/// Texts in order with one more put in its place, if it is not there yet.
pub open spec fn put(l: Seq<Seq<char>>, x: Seq<char>) -> Seq<Seq<char>>
    decreases l.len(),
{
    if l.len() == 0 || order::compare_text(l.last(), x) < 0 {
        l.push(x)
    } else if l.last() == x {
        l
    } else {
        put(l.drop_last(), x).push(l.last())
    }
}

/// The texts of a list in order, each once.
pub open spec fn ordered(l: Seq<Seq<char>>) -> Seq<Seq<char>>
    decreases l.len(),
{
    if l.len() == 0 {
        l
    } else {
        put(ordered(l.drop_last()), l.last())
    }
}

// --- Laws. ---

proof fn lemma_last(a: Seq<Seq<char>>, x: Seq<char>)
    requires
        ascending(a),
        a.contains(x),
    ensures
        a.len() > 0,
        order::compare_text(x, a.last()) <= 0,
{
    let i = choose|i: int| 0 <= i < a.len() && a[i] == x;
    if i < a.len() - 1 {
        assert(order::compare_text(a[i], a[a.len() - 1]) < 0);
    } else {
        order::lemma_text_order(x, x, x);
    }
}

proof fn lemma_drop_last(a: Seq<Seq<char>>, t: Seq<char>)
    requires
        ascending(a),
        a.len() > 0,
    ensures
        ascending(a.drop_last()),
        a.drop_last().contains(t) <==> a.contains(t) && t != a.last(),
{
    let b = a.drop_last();
    assert forall|i: int, j: int| 0 <= i < j < b.len() implies order::compare_text(
        #[trigger] b[i],
        #[trigger] b[j],
    ) < 0 by {
        assert(b[i] == a[i] && b[j] == a[j]);
    }
    if b.contains(t) {
        let i = choose|i: int| 0 <= i < b.len() && b[i] == t;
        assert(a[i] == t);
        assert(order::compare_text(a[i], a[a.len() - 1]) < 0);
        order::lemma_text_order(t, t, t);
    }
    if a.contains(t) && t != a.last() {
        let i = choose|i: int| 0 <= i < a.len() && a[i] == t;
        assert(b[i] == t);
    }
}

/// There is one way to put texts in order, each once: two lists in order with the same members
/// are the same.
pub proof fn law_ascending(a: Seq<Seq<char>>, b: Seq<Seq<char>>)
    requires
        ascending(a),
        ascending(b),
        same_members(a, b),
    ensures
        a == b,
    decreases a.len(),
{
    if a.len() == 0 {
        if b.len() > 0 {
            assert(b.contains(b[0]));
            assert(a.contains(b[0]));
        }
        assert(a =~= b);
    } else {
        assert(a.contains(a.last()));
        assert(b.contains(a.last()));
        lemma_last(b, a.last());
        assert(b.contains(b.last()));
        assert(a.contains(b.last()));
        lemma_last(a, b.last());
        order::lemma_text_order(a.last(), b.last(), a.last());
        order::lemma_text_order(b.last(), a.last(), b.last());
        assert(a.last() == b.last());
        lemma_drop_last(a, a.last());
        lemma_drop_last(b, b.last());
        assert forall|t: Seq<char>| #[trigger]
            a.drop_last().contains(t) <==> b.drop_last().contains(t) by {
            lemma_drop_last(a, t);
            lemma_drop_last(b, t);
            assert(a.contains(t) <==> b.contains(t));
        }
        law_ascending(a.drop_last(), b.drop_last());
        assert(a =~= a.drop_last().push(a.last()));
        assert(b =~= b.drop_last().push(b.last()));
    }
}

proof fn lemma_put(l: Seq<Seq<char>>, x: Seq<char>)
    requires
        ascending(l),
    ensures
        ascending(put(l, x)),
        forall|t: Seq<char>| #[trigger] put(l, x).contains(t) <==> (l.contains(t) || t == x),
    decreases l.len(),
{
    let r = put(l, x);
    if l.len() == 0 || order::compare_text(l.last(), x) < 0 {
        assert forall|i: int, j: int| 0 <= i < j < r.len() implies order::compare_text(
            #[trigger] r[i],
            #[trigger] r[j],
        ) < 0 by {
            if j == l.len() && i < l.len() - 1 {
                assert(order::compare_text(l[i], l[l.len() - 1]) < 0);
                order::lemma_text_order(l[i], l.last(), x);
                order::lemma_text_order(l[i], x, x);
                order::lemma_text_order(l.last(), x, x);
                order::lemma_text_order(l.last(), l[i], x);
                order::lemma_text_order(x, l.last(), l[i]);
                order::lemma_text_order(x, l[i], l.last());
            }
        }
        lemma_push(l, x);
    } else if l.last() == x {
        assert(l.contains(x));
    } else {
        let d = l.drop_last();
        let z = l.last();
        let p = put(d, x);
        assert forall|i: int, j: int| 0 <= i < j < d.len() implies order::compare_text(
            #[trigger] d[i],
            #[trigger] d[j],
        ) < 0 by {
            assert(d[i] == l[i] && d[j] == l[j]);
        }
        lemma_put(d, x);
        order::lemma_text_order(z, x, x);
        order::lemma_text_order(x, z, z);
        assert forall|i: int, j: int| 0 <= i < j < r.len() implies order::compare_text(
            #[trigger] r[i],
            #[trigger] r[j],
        ) < 0 by {
            if j == p.len() {
                assert(p.contains(p[i]));
                if p[i] != x {
                    assert(d.contains(p[i]));
                    let k = choose|k: int| 0 <= k < d.len() && d[k] == p[i];
                    assert(order::compare_text(l[k], l[l.len() - 1]) < 0);
                }
            } else {
                assert(r[i] == p[i] && r[j] == p[j]);
            }
        }
        lemma_push(p, z);
        lemma_push(d, z);
        assert(l =~= d.push(z));
        assert forall|t: Seq<char>| #[trigger] r.contains(t) <==> (l.contains(t) || t == x) by {
            assert(p.contains(t) <==> (d.contains(t) || t == x));
            assert(p.push(z).contains(t) <==> (p.contains(t) || t == z));
            assert(d.push(z).contains(t) <==> (d.contains(t) || t == z));
        }
    }
}

proof fn lemma_push(l: Seq<Seq<char>>, x: Seq<char>)
    ensures
        forall|t: Seq<char>| #[trigger] l.push(x).contains(t) <==> (l.contains(t) || t == x),
{
    let r = l.push(x);
    assert forall|t: Seq<char>| #[trigger] r.contains(t) <==> (l.contains(t) || t == x) by {
        if l.contains(t) {
            let k = choose|k: int| 0 <= k < l.len() && l[k] == t;
            assert(r[k] == t);
        }
        assert(r[l.len() as int] == x);
        if r.contains(t) {
            let k = choose|k: int| 0 <= k < r.len() && r[k] == t;
            if k < l.len() {
                assert(l[k] == t);
            }
        }
    }
}

/// The texts of a list in order are in order and are those of the list.
pub proof fn law_ordered(l: Seq<Seq<char>>)
    ensures
        ascending(ordered(l)),
        same_members(ordered(l), l),
    decreases l.len(),
{
    if l.len() > 0 {
        let d = l.drop_last();
        law_ordered(d);
        lemma_put(ordered(d), l.last());
        lemma_push(d, l.last());
        assert(l =~= d.push(l.last()));
        assert forall|t: Seq<char>| #[trigger] ordered(l).contains(t) <==> l.contains(t) by {
            assert(ordered(d).contains(t) <==> d.contains(t));
            assert(d.push(l.last()).contains(t) <==> (d.contains(t) || t == l.last()));
        }
    }
}

/// Two lists have the same members if and only if they are the same in order.
pub proof fn law_same_ordered(a: Seq<Seq<char>>, b: Seq<Seq<char>>)
    ensures
        same_members(a, b) <==> ordered(a) == ordered(b),
{
    law_ordered(a);
    law_ordered(b);
    if same_members(a, b) {
        assert forall|t: Seq<char>| #[trigger]
            ordered(a).contains(t) <==> ordered(b).contains(t) by {
            assert(ordered(a).contains(t) <==> a.contains(t));
            assert(a.contains(t) <==> b.contains(t));
            assert(ordered(b).contains(t) <==> b.contains(t));
        }
        law_ascending(ordered(a), ordered(b));
    }
    if ordered(a) == ordered(b) {
        assert forall|t: Seq<char>| #[trigger] a.contains(t) <==> b.contains(t) by {
            assert(ordered(a).contains(t) <==> a.contains(t));
            assert(ordered(b).contains(t) <==> b.contains(t));
        }
    }
}

/// A list in order, each text once, stays as it is.
pub proof fn law_ordered_again(l: Seq<Seq<char>>)
    requires
        ascending(l),
    ensures
        ordered(l) == l,
{
    law_ordered(l);
    law_ascending(ordered(l), l);
}

// --- Lists of strings. ---

/// Puts a text in its place, if it is not there yet.
fn put_text(out: &mut Vec<String>, x: String)
    requires
        ascending(texts(old(out)@)),
    ensures
        texts(final(out)@) == put(texts(old(out)@), x@),
{
    let xs = chars::chars_of(&x);
    let mut n: usize = 0;
    let ghost all = texts(out@);
    let ghost y = x@;
    while n < out.len()
        invariant
            n <= out@.len(),
            all == texts(out@),
            texts(old(out)@) == all,
            ascending(all),
            xs@ == y,
            y == x@,
            forall|i: int| 0 <= i < n ==> order::compare_text(#[trigger] all[i], y) < 0,
        ensures
            n <= out@.len(),
            n < out@.len() ==> order::compare_text(all[n as int], y) > 0,
            forall|i: int| 0 <= i < n ==> order::compare_text(#[trigger] all[i], y) < 0,
        decreases out@.len() - n,
    {
        assert(all[n as int] == out@[n as int]@);
        match chars::compare_text(&chars::chars_of(&out[n]), &xs) {
            Sign::Before => {
                n += 1;
            },
            Sign::Same => {
                proof {
                    order::lemma_text_order(all[n as int], y, y);
                    assert(all.contains(y));
                    lemma_put(all, y);
                    law_ascending(all, put(all, y));
                }
                return ;
            },
            Sign::After => {
                break;
            },
        }
    }
    out.insert(n, x);
    proof {
        let r = texts(out@);
        assert(r =~= all.insert(n as int, y));
        assert forall|i: int, j: int| 0 <= i < j < r.len() implies order::compare_text(
            #[trigger] r[i],
            #[trigger] r[j],
        ) < 0 by {
            if i < n && j > n {
                assert(r[i] == all[i] && r[j] == all[j - 1]);
            } else if i == n {
                assert(r[j] == all[j - 1]);
                order::lemma_text_order(all[n as int], y, y);
                order::lemma_text_order(y, all[n as int], all[j - 1]);
                if j - 1 > n {
                    assert(order::compare_text(all[n as int], all[j - 1]) < 0);
                    order::lemma_text_order(all[j - 1], y, all[n as int]);
                    order::lemma_text_order(y, all[j - 1], y);
                    order::lemma_text_order(all[j - 1], all[n as int], y);
                    order::lemma_text_order(all[n as int], all[j - 1], y);
                }
            } else if j == n {
                assert(r[i] == all[i]);
            } else if i > n {
                assert(r[i] == all[i - 1] && r[j] == all[j - 1]);
            } else {
                assert(r[i] == all[i] && r[j] == all[j]);
            }
        }
        assert forall|t: Seq<char>| #[trigger] r.contains(t) <==> (all.contains(t) || t == y) by {
            if r.contains(t) {
                let k = choose|k: int| 0 <= k < r.len() && r[k] == t;
                if k < n {
                    assert(all[k] == t);
                } else if k > n {
                    assert(all[k - 1] == t);
                }
            }
            if all.contains(t) {
                let k = choose|k: int| 0 <= k < all.len() && all[k] == t;
                if k < n {
                    assert(r[k] == t);
                } else {
                    assert(r[k + 1] == t);
                }
            }
            assert(r[n as int] == y);
        }
        lemma_put(all, y);
        law_ascending(r, put(all, y));
    }
}

/// The texts of a list in order, each once.
pub(crate) fn sort(l: &Vec<String>) -> (r: Vec<String>)
    ensures
        texts(r@) == ordered(texts(l@)),
{
    let mut out: Vec<String> = Vec::new();
    let ghost all = texts(l@);
    let mut i: usize = 0;
    assert(texts(out@) =~= ordered(all.take(0)));
    while i < l.len()
        invariant
            i <= l@.len(),
            all == texts(l@),
            texts(out@) == ordered(all.take(i as int)),
        decreases l@.len() - i,
    {
        proof {
            law_ordered(all.take(i as int));
            assert(all[i as int] == l@[i as int]@);
            assert(all.take(i + 1).drop_last() =~= all.take(i as int));
            assert(all.take(i + 1).last() == all[i as int]);
        }
        put_text(&mut out, chars::copy(&l[i]));
        i += 1;
    }
    assert(all.take(i as int) =~= all);
    out
}

/// Whether two lists of strings are the same.
fn same_texts(a: &Vec<String>, b: &Vec<String>) -> (r: bool)
    ensures
        r == (texts(a@) == texts(b@)),
{
    if a.len() != b.len() {
        assert(texts(a@).len() != texts(b@).len());
        return false;
    }
    let mut i: usize = 0;
    while i < a.len()
        invariant
            i <= a@.len(),
            a@.len() == b@.len(),
            forall|j: int| 0 <= j < i ==> texts(a@)[j] == #[trigger] texts(b@)[j],
        decreases a@.len() - i,
    {
        assert(texts(a@)[i as int] == a@[i as int]@);
        assert(texts(b@)[i as int] == b@[i as int]@);
        if !chars::same_text(&a[i], &b[i]) {
            return false;
        }
        i += 1;
    }
    assert(texts(a@) =~= texts(b@));
    true
}

/// Whether two lists of strings hold the same texts.
pub(crate) fn same_strings(a: &Vec<String>, b: &Vec<String>) -> (r: bool)
    ensures
        r == same_members(texts(a@), texts(b@)),
{
    proof {
        law_same_ordered(texts(a@), texts(b@));
    }
    same_texts(&sort(a), &sort(b))
}

/// Appends strings with commas between them.
pub(crate) fn push_joined(out: &mut String, l: &Vec<String>)
    ensures
        final(out)@ == old(out)@ + text::join(texts(l@), seq![',']),
{
    let ghost all = texts(l@);
    let mut i: usize = 0;
    assert(out@ =~= old(out)@ + text::join(all.take(0), seq![',']));
    while i < l.len()
        invariant
            i <= l@.len(),
            all == texts(l@),
            out@ == old(out)@ + text::join(all.take(i as int), seq![',']),
        decreases l@.len() - i,
    {
        if i > 0 {
            out.push(',');
        }
        out.push_str(&l[i]);
        proof {
            let p = l@[i as int]@;
            assert(all[i as int] == p);
            assert(all.take(i + 1) =~= all.take(i as int).push(p));
            if i > 0 {
                text::lemma_join_push(all.take(i as int), p, seq![',']);
            } else {
                assert(text::join(all.take(1), seq![',']) == p);
            }
            assert(out@ =~= old(out)@ + text::join(all.take(i + 1), seq![',']));
        }
        i += 1;
    }
    assert(all.take(i as int) =~= all);
}

} // verus!
