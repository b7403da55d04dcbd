//! Three-way comparison. A comparison is a number whose sign says which of two values comes
//! first: negative for the first, zero for neither, positive for the second.

use vstd::prelude::*;

verus! {

/// How two values compare.
#[derive(Debug, Clone, Copy, PartialEq, Eq, Structural)]
pub enum Sign {
    Before,
    Same,
    After,
}

/// The sign of a comparison.
pub open spec fn sign(n: int) -> Sign {
    if n < 0 {
        Sign::Before
    } else if n == 0 {
        Sign::Same
    } else {
        Sign::After
    }
}

/// The first of two comparisons that decides.
pub open spec fn first(a: int, b: int) -> int {
    if a != 0 {
        a
    } else {
        b
    }
}

/// How two sequences compare, element by element. A sequence comes before its extensions.
pub open spec fn compare_seq<T>(a: Seq<T>, b: Seq<T>, c: spec_fn(T, T) -> int) -> int
    decreases a.len(),
{
    if a.len() == 0 || b.len() == 0 {
        a.len() - b.len()
    } else {
        first(c(a[0], b[0]), compare_seq(a.skip(1), b.skip(1), c))
    }
}

/// What makes a comparison a total order: two values are the same exactly where neither comes
/// first, turning the values round turns the sign round, and the order is transitive.
pub open spec fn is_order<T>(c: spec_fn(T, T) -> int) -> bool {
    &&& forall|x: T, y: T| #[trigger] c(x, y) == 0 <==> x == y
    &&& forall|x: T, y: T| #[trigger] c(x, y) < 0 <==> c(y, x) > 0
    &&& forall|x: T, y: T, z: T|
        #![trigger c(x, y), c(y, z)]
        c(x, y) <= 0 && c(y, z) <= 0 ==> c(x, z) <= 0
}

proof fn lemma_seq_same<T>(a: Seq<T>, b: Seq<T>, c: spec_fn(T, T) -> int)
    requires
        is_order(c),
    ensures
        compare_seq(a, b, c) == 0 <==> a == b,
        compare_seq(a, b, c) < 0 <==> compare_seq(b, a, c) > 0,
    decreases a.len(),
{
    if a.len() == 0 || b.len() == 0 {
        if a.len() == b.len() {
            assert(a =~= b);
        }
    } else {
        lemma_seq_same(a.skip(1), b.skip(1), c);
        assert(c(a[0], b[0]) < 0 <==> c(b[0], a[0]) > 0);
        assert(c(b[0], a[0]) < 0 <==> c(a[0], b[0]) > 0);
        if compare_seq(a, b, c) == 0 {
            assert(a =~= seq![a[0]] + a.skip(1));
            assert(b =~= seq![b[0]] + b.skip(1));
        }
    }
}

proof fn lemma_seq_transitive<T>(a: Seq<T>, b: Seq<T>, d: Seq<T>, c: spec_fn(T, T) -> int)
    requires
        is_order(c),
        compare_seq(a, b, c) <= 0,
        compare_seq(b, d, c) <= 0,
    ensures
        compare_seq(a, d, c) <= 0,
    decreases a.len(),
{
    if a.len() == 0 || b.len() == 0 || d.len() == 0 {
    } else {
        let (x, y, z) = (a[0], b[0], d[0]);
        assert(c(x, y) <= 0 && c(y, z) <= 0);
        assert(c(x, z) <= 0);
        if c(x, z) == 0 {
            assert(x == z);
            assert(c(y, x) <= 0);
            assert(c(x, y) < 0 <==> c(y, x) > 0);
            assert(c(x, y) == 0);
            assert(c(y, z) == 0);
            lemma_seq_transitive(a.skip(1), b.skip(1), d.skip(1), c);
        }
    }
}

/// Sequences compared element by element are in a total order where their elements are.
pub proof fn lemma_seq_order<T>(a: Seq<T>, b: Seq<T>, d: Seq<T>, c: spec_fn(T, T) -> int)
    requires
        is_order(c),
    ensures
        compare_seq(a, b, c) == 0 <==> a == b,
        compare_seq(a, b, c) < 0 <==> compare_seq(b, a, c) > 0,
        compare_seq(a, b, c) <= 0 && compare_seq(b, d, c) <= 0 ==> compare_seq(a, d, c) <= 0,
{
    lemma_seq_same(a, b, c);
    if compare_seq(a, b, c) <= 0 && compare_seq(b, d, c) <= 0 {
        lemma_seq_transitive(a, b, d, c);
    }
}

/// Characters in the order of their code points.
pub open spec fn char_order() -> spec_fn(char, char) -> int {
    |x: char, y: char| x as int - y as int
}

/// Numbers by size.
pub open spec fn nat_order() -> spec_fn(nat, nat) -> int {
    |x: nat, y: nat| x - y
}

/// How two texts compare, character by character.
pub open spec fn compare_text(a: Seq<char>, b: Seq<char>) -> int {
    compare_seq(a, b, char_order())
}

/// Texts are in a total order.
pub proof fn lemma_text_order(a: Seq<char>, b: Seq<char>, c: Seq<char>)
    ensures
        compare_text(a, b) == 0 <==> a == b,
        compare_text(a, b) < 0 <==> compare_text(b, a) > 0,
        compare_text(a, b) <= 0 && compare_text(b, c) <= 0 ==> compare_text(a, c) <= 0,
{
    lemma_seq_order(a, b, c, char_order());
}

} // verus!
