//! Laws of markers: what is read back from a marker's text, and what a marker says.

use vstd::prelude::*;

use crate::clause::Operator;
use crate::evaluation::{self, Failure, Value};
use crate::marker_grammar::{self, MarkerOp, Operand, Tree};
use crate::marker_text;
use crate::markers;
use crate::names;
use crate::outside;
use crate::text::{self, Class};
use crate::tokenizer::{self, Rule};

verus! {

// --- The shape of markers. ---

/// Whether an operand can stand in a marker. With `strict`, whether it is read back from its
/// text.
pub open spec fn can_stand(v: Operand, strict: bool) -> bool {
    match v {
        Operand::Variable(t) => marker_text::is_variable(t),
        Operand::Value(t) => strict ==> marker_text::is_value(t),
    }
}

/// Whether a part of a marker is a comparison or a marker in parentheses.
pub open spec fn is_part(t: Tree, strict: bool) -> bool
    decreases t,
{
    match t {
        Tree::Item { lhs, op, rhs } => can_stand(lhs, strict) && can_stand(rhs, strict),
        Tree::List(l) => is_marker(l, strict),
        _ => false,
    }
}

/// Whether parts make a marker: comparisons and markers in parentheses with `and` or `or`
/// between them.
pub open spec fn is_marker(l: Seq<Tree>, strict: bool) -> bool
    decreases l,
{
    &&& l.len() % 2 == 1
    &&& forall|i: int|
        #![trigger l[i]]
        0 <= i < l.len() ==> if i % 2 == 0 {
            is_part(l[i], strict)
        } else {
            l[i] == Tree::And || l[i] == Tree::Or
        }
}

// --- What is read back. ---

/// The parts that the text of a part is read back as: parentheses around a single part are
/// left out.
pub open spec fn parts(t: Tree, first: bool) -> Seq<Tree>
    decreases t, 0nat,
{
    match t {
        Tree::List(l) => list_parts(l, first),
        _ => seq![t],
    }
}

/// The parts that the text of a marker is read back as.
pub open spec fn list_parts(l: Seq<Tree>, first: bool) -> Seq<Tree>
    decreases l, 2nat,
{
    if l.len() == 1 && (l[0] is List || l[0] is Item) {
        parts(l[0], first)
    } else if first {
        all_parts(l)
    } else {
        seq![Tree::List(all_parts(l))]
    }
}

/// The parts that the texts of several parts are read back as.
pub open spec fn all_parts(l: Seq<Tree>) -> Seq<Tree>
    decreases l, 1nat,
{
    if l.len() == 0 {
        l
    } else {
        all_parts(l.drop_last()) + parts(l.last(), false)
    }
}

/// Two markers with a word between them are a marker.
proof fn lemma_canonical_add(a: Seq<Tree>, w: Tree, b: Seq<Tree>)
    requires
        marker_text::is_canonical(a),
        marker_text::is_canonical(b),
        w == Tree::And || w == Tree::Or,
    ensures
        marker_text::is_canonical(a + seq![w] + b),
        (a + seq![w] + b).len() >= 3,
{
    let l = a + seq![w] + b;
    assert forall|i: int|
        #![trigger l[i]]
        0 <= i < l.len() implies if i % 2 == 0 {
        marker_text::is_atom(l[i])
    } else {
        l[i] == Tree::And || l[i] == Tree::Or
    } by {
        if i < a.len() {
            assert(l[i] == a[i]);
        } else if i == a.len() {
            assert(l[i] == w);
        } else {
            let j = i - a.len() - 1;
            assert(l[i] == b[j]);
            assert(j % 2 == i % 2);
        }
    }
}

proof fn lemma_parts(t: Tree, first: bool)
    requires
        is_part(t, true),
    ensures
        marker_text::is_canonical(parts(t, first)),
        first && parts(t, first).len() == 1 ==> parts(t, first)[0] is Item,
    decreases t, 0nat,
{
    match t {
        Tree::Item { lhs, op, rhs } => {
            assert(marker_text::is_atom(t));
        },
        Tree::List(l) => {
            lemma_list_parts(l, first);
        },
        _ => {},
    }
}

proof fn lemma_list_parts(l: Seq<Tree>, first: bool)
    requires
        is_marker(l, true),
    ensures
        marker_text::is_canonical(list_parts(l, first)),
        first && list_parts(l, first).len() == 1 ==> list_parts(l, first)[0] is Item,
    decreases l, l.len() + 1,
{
    assert(is_part(l[0], true));
    if l.len() == 1 {
        lemma_parts(l[0], first);
    } else {
        lemma_all_parts(l, l.len() as int);
        assert(l.take(l.len() as int) =~= l);
        if !first {
            let c = all_parts(l);
            let t = Tree::List(c);
            assert(marker_text::is_atom(t));
            let one = seq![t];
            assert forall|i: int|
                #![trigger one[i]]
                0 <= i < one.len() implies if i % 2 == 0 {
                marker_text::is_atom(one[i])
            } else {
                one[i] == Tree::And || one[i] == Tree::Or
            } by {}
        }
    }
}

proof fn lemma_all_parts(l: Seq<Tree>, k: int)
    requires
        is_marker(l, true),
        0 < k <= l.len(),
        k % 2 == 1,
    ensures
        marker_text::is_canonical(all_parts(l.take(k))),
        k >= 3 ==> all_parts(l.take(k)).len() >= 3,
    decreases l, k,
{
    let h = l.take(k);
    assert(is_part(l[k - 1], true));
    lemma_parts(l[k - 1], false);
    assert(h.last() == l[k - 1]);
    if k == 1 {
        let none = Seq::<Tree>::empty();
        assert(h.drop_last() =~= none);
        assert(all_parts(none) == none);
        assert(all_parts(h) == all_parts(none) + parts(h.last(), false));
        assert(all_parts(h) =~= parts(l[0], false));
    } else {
        let h1 = l.take(k - 1);
        let h2 = l.take(k - 2);
        assert(h.drop_last() =~= h1);
        assert(h1.drop_last() =~= h2);
        assert(h1.last() == l[k - 2]);
        assert(l[k - 2] == Tree::And || l[k - 2] == Tree::Or);
        lemma_all_parts(l, k - 2);
        lemma_canonical_add(all_parts(h2), l[k - 2], parts(l[k - 1], false));
        assert(parts(l[k - 2], false) == seq![l[k - 2]]);
        assert(all_parts(h1) == all_parts(h2) + parts(h1.last(), false));
        assert(all_parts(h) == all_parts(h1) + parts(h.last(), false));
    }
}

// --- The text of what is read back. ---

proof fn lemma_texts_push(l: Seq<Tree>, t: Tree)
    ensures
        marker_grammar::texts(l.push(t)) == marker_grammar::texts(l).push(
            marker_grammar::tree_text(t, false),
        ),
{
    assert(l.push(t).drop_last() =~= l);
}

proof fn lemma_texts_add(a: Seq<Tree>, b: Seq<Tree>)
    ensures
        marker_grammar::texts(a + b) == marker_grammar::texts(a) + marker_grammar::texts(b),
    decreases b.len(),
{
    if b.len() == 0 {
        assert(a + b =~= a);
        assert(marker_grammar::texts(a) + marker_grammar::texts(b) =~= marker_grammar::texts(a));
    } else {
        lemma_texts_add(a, b.drop_last());
        assert((a + b).drop_last() =~= a + b.drop_last());
        assert(marker_grammar::texts(a) + marker_grammar::texts(b) =~= (marker_grammar::texts(a)
            + marker_grammar::texts(b.drop_last())).push(
            marker_grammar::tree_text(b.last(), false),
        ));
    }
}

proof fn lemma_join_add(a: Seq<Seq<char>>, b: Seq<Seq<char>>, glue: Seq<char>)
    requires
        a.len() > 0,
        b.len() > 0,
    ensures
        text::join(a + b, glue) == text::join(a, glue) + glue + text::join(b, glue),
    decreases a.len(),
{
    let s = a + b;
    if a.len() == 1 {
        assert(s.skip(1) =~= b);
        assert(text::join(s, glue) =~= text::join(a, glue) + glue + text::join(b, glue));
    } else {
        lemma_join_add(a.skip(1), b, glue);
        assert(s.skip(1) =~= a.skip(1) + b);
        assert(text::join(s, glue) =~= text::join(a, glue) + glue + text::join(b, glue));
    }
}

/// The text of parts, with spaces between them.
spec fn joined(l: Seq<Tree>) -> Seq<char> {
    text::join(marker_grammar::texts(l), " "@)
}

proof fn lemma_joined_one(t: Tree)
    ensures
        joined(seq![t]) == marker_grammar::tree_text(t, false),
{
    let none = Seq::<Tree>::empty();
    assert(seq![t] =~= none.push(t));
    lemma_texts_push(none, t);
    assert(marker_grammar::texts(none) =~= Seq::empty());
    assert(marker_grammar::texts(seq![t]) =~= seq![marker_grammar::tree_text(t, false)]);
}

proof fn lemma_joined_add(a: Seq<Tree>, b: Seq<Tree>)
    requires
        a.len() > 0,
        b.len() > 0,
    ensures
        joined(a + b) == joined(a) + " "@ + joined(b),
{
    lemma_texts_add(a, b);
    marker_text::lemma_texts(a);
    marker_text::lemma_texts(b);
    lemma_join_add(marker_grammar::texts(a), marker_grammar::texts(b), " "@);
}

proof fn lemma_parts_text(t: Tree, first: bool)
    requires
        is_part(t, true),
    ensures
        joined(parts(t, first)) == marker_grammar::tree_text(t, first),
    decreases t, 0nat,
{
    match t {
        Tree::Item { lhs, op, rhs } => {
            lemma_joined_one(t);
        },
        Tree::List(l) => {
            lemma_list_parts_text(l, first);
        },
        _ => {},
    }
}

proof fn lemma_list_parts_text(l: Seq<Tree>, first: bool)
    requires
        is_marker(l, true),
    ensures
        joined(list_parts(l, first)) == marker_grammar::list_text(l, first),
    decreases l, l.len() + 1,
{
    assert(is_part(l[0], true));
    if l.len() == 1 {
        lemma_parts_text(l[0], first);
    } else {
        let whole = l.take(l.len() as int);
        assert(whole =~= l);
        lemma_all_parts_text(l, l.len() as int);
        lemma_all_parts(l, l.len() as int);
        if !first {
            let c = all_parts(l);
            lemma_joined_one(Tree::List(c));
            assert(marker_grammar::tree_text(Tree::List(c), false) == marker_grammar::list_text(
                c,
                false,
            ));
        }
    }
}

proof fn lemma_all_parts_text(l: Seq<Tree>, k: int)
    requires
        is_marker(l, true),
        0 < k <= l.len(),
        k % 2 == 1,
    ensures
        joined(all_parts(l.take(k))) == joined(l.take(k)),
    decreases l, k,
{
    let h = l.take(k);
    let t = l[k - 1];
    assert(is_part(t, true));
    lemma_parts(t, false);
    lemma_parts_text(t, false);
    lemma_joined_one(t);
    assert(h.last() == t);
    if k == 1 {
        let none = Seq::<Tree>::empty();
        assert(h.drop_last() =~= none);
        assert(all_parts(none) == none);
        assert(all_parts(h) == all_parts(none) + parts(h.last(), false));
        assert(all_parts(h) =~= parts(t, false));
        assert(h =~= seq![t]);
    } else {
        let w = l[k - 2];
        let h1 = l.take(k - 1);
        let h2 = l.take(k - 2);
        assert(h.drop_last() =~= h1);
        assert(h1.drop_last() =~= h2);
        assert(h1.last() == w);
        assert(w == Tree::And || w == Tree::Or);
        lemma_all_parts(l, k - 2);
        lemma_all_parts_text(l, k - 2);
        let a = all_parts(h2);
        assert(parts(w, false) == seq![w]);
        assert(all_parts(h1) == a + parts(h1.last(), false));
        assert(all_parts(h) == all_parts(h1) + parts(h.last(), false));
        assert(all_parts(h) == a + seq![w] + parts(t, false));
        lemma_joined_add(a, seq![w]);
        lemma_joined_add(a + seq![w], parts(t, false));
        assert(h1 =~= h2 + seq![w]);
        assert(h =~= h1 + seq![t]);
        lemma_joined_add(h2, seq![w]);
        lemma_joined_add(h1, seq![t]);
    }
}

/// The parts that the text of a marker is read back as are in canonical form, and have the same
/// text.
pub proof fn lemma_reread_parts(l: Seq<Tree>)
    requires
        is_marker(l, true),
    ensures
        marker_text::is_canonical(list_parts(l, true)),
        text::join(marker_grammar::texts(list_parts(l, true)), " "@) == marker_grammar::list_text(
            l,
            true,
        ),
        marker_grammar::list_text(list_parts(l, true), true) == marker_grammar::list_text(l, true),
{
    let c = list_parts(l, true);
    lemma_list_parts(l, true);
    lemma_list_parts_text(l, true);
    if c.len() == 1 {
        lemma_joined_one(c[0]);
        assert(c =~= seq![c[0]]);
    }
    assert(marker_grammar::list_text(c, true) == joined(c));
}

/// The text of a marker is read back as a marker with the same text.
proof fn lemma_reread(l: Seq<Tree>)
    requires
        is_marker(l, true),
    ensures
        marker_grammar::read_full(marker_grammar::list_text(l, true)) == Ok::<
            Seq<Tree>,
            tokenizer::SyntaxError,
        >(list_parts(l, true)),
        marker_grammar::list_text(list_parts(l, true), true) == marker_grammar::list_text(l, true),
{
    let c = list_parts(l, true);
    lemma_list_parts(l, true);
    lemma_list_parts_text(l, true);
    if c.len() == 1 {
        lemma_joined_one(c[0]);
        assert(c =~= seq![c[0]]);
    }
    assert(marker_grammar::list_text(c, true) == joined(c));
    marker_text::law_read_canonical(c);
}

// --- The meaning of what is read back. ---

/// What a part more adds to the parts of a marker.
proof fn lemma_step(l: Seq<Tree>, t: Tree, env: spec_fn(Seq<char>) -> Option<Value>)
    requires
        t is Item || t is List,
    ensures
        evaluation::eval_parts(l.push(t), env) == match evaluation::eval_parts(l, env) {
            Err(e) => Err(e),
            Ok((some, group)) => match evaluation::eval_list(seq![t], env) {
                Err(e) => Err(e),
                Ok(b) => Ok((some, group && b)),
            },
        },
{
    let none = Seq::<Tree>::empty();
    let one = seq![t];
    assert(l.push(t).drop_last() =~= l);
    assert(l.push(t).last() == t);
    assert(one.drop_last() =~= none);
    assert(one.last() == t);
    assert(evaluation::eval_parts(none, env) == Ok::<(bool, bool), Failure>((false, true)));
}

/// The text of a part within a marker is read back as one part.
proof fn lemma_one_part(t: Tree, strict: bool)
    requires
        is_part(t, strict),
    ensures
        parts(t, false).len() == 1,
        parts(t, false)[0] is Item || parts(t, false)[0] is List,
    decreases t,
{
    if let Tree::List(l) = t {
        assert(is_part(l[0], strict));
        if l.len() == 1 {
            lemma_one_part(l[0], strict);
        }
    }
}

proof fn lemma_parts_meaning(
    t: Tree,
    strict: bool,
    first: bool,
    env: spec_fn(Seq<char>) -> Option<Value>,
)
    requires
        is_part(t, strict),
    ensures
        evaluation::eval_list(parts(t, first), env) == evaluation::eval_list(seq![t], env),
    decreases t, 0nat,
{
    if let Tree::List(l) = t {
        lemma_list_parts_meaning(l, strict, first, env);
        law_parentheses(l, env);
    }
}

proof fn lemma_list_parts_meaning(
    l: Seq<Tree>,
    strict: bool,
    first: bool,
    env: spec_fn(Seq<char>) -> Option<Value>,
)
    requires
        is_marker(l, strict),
    ensures
        evaluation::eval_list(list_parts(l, first), env) == evaluation::eval_list(l, env),
    decreases l, l.len() + 1,
{
    assert(is_part(l[0], strict));
    if l.len() == 1 {
        lemma_parts_meaning(l[0], strict, first, env);
        assert(l =~= seq![l[0]]);
    } else {
        assert(l.take(l.len() as int) =~= l);
        lemma_all_parts_meaning(l, strict, l.len() as int, env);
        law_parentheses(all_parts(l), env);
    }
}

proof fn lemma_all_parts_meaning(
    l: Seq<Tree>,
    strict: bool,
    k: int,
    env: spec_fn(Seq<char>) -> Option<Value>,
)
    requires
        is_marker(l, strict),
        0 <= k <= l.len(),
    ensures
        evaluation::eval_parts(all_parts(l.take(k)), env) == evaluation::eval_parts(
            l.take(k),
            env,
        ),
    decreases l, k,
{
    let h = l.take(k);
    if k == 0 {
        assert(all_parts(h) == h);
    } else {
        let h1 = l.take(k - 1);
        let t = l[k - 1];
        let a = all_parts(h1);
        assert(h.drop_last() =~= h1);
        assert(h.last() == t);
        assert(h =~= h1.push(t));
        lemma_all_parts_meaning(l, strict, k - 1, env);
        assert(all_parts(h) == a + parts(t, false));
        if (k - 1) % 2 == 0 {
            assert(is_part(t, strict));
            lemma_one_part(t, strict);
            lemma_parts_meaning(t, strict, false, env);
            let u = parts(t, false)[0];
            assert(parts(t, false) =~= seq![u]);
            assert(a + parts(t, false) =~= a.push(u));
            lemma_step(a, u, env);
            lemma_step(h1, t, env);
        } else {
            assert(t == Tree::And || t == Tree::Or);
            assert(parts(t, false) == seq![t]);
            assert(a + parts(t, false) =~= a.push(t));
            assert(a.push(t).drop_last() =~= a);
            assert(a.push(t).last() == t);
        }
    }
}

/// Leaving out the parentheses that are not needed changes nothing of what a marker says.
pub proof fn law_parts_meaning(
    l: Seq<Tree>,
    strict: bool,
    env: spec_fn(Seq<char>) -> Option<Value>,
)
    requires
        is_marker(l, strict),
    ensures
        evaluation::eval_list(list_parts(l, true), env) == evaluation::eval_list(l, env),
{
    lemma_list_parts_meaning(l, strict, true, env);
}

// --- What is read has the shape of a marker. ---

/// The first word that a text begins with is one of the words.
proof fn lemma_first_word(s: Seq<char>, words: Seq<Seq<char>>)
    ensures
        tokenizer::first_word(s, words) matches Some(n) ==> words.contains(text::head(s, n)),
    decreases words.len(),
{
    if words.len() > 0 {
        if tokenizer::word_at(s, words[0]) {
            assert(words.contains(words[0]));
        } else {
            lemma_first_word(s, words.skip(1));
            if let Some(n) = tokenizer::first_word(s, words) {
                let w = text::head(s, n);
                let k = choose|k: int| 0 <= k < words.skip(1).len() && words.skip(1)[k] == w;
                assert(words[k + 1] == w);
            }
        }
    }
}

proof fn lemma_undotted(t: Seq<char>)
    requires
        !t.contains('.'),
    ensures
        marker_grammar::undotted(t) == t,
{
    assert forall|i: int| 0 <= i < t.len() implies #[trigger] t[i] != '.' by {
        assert(t.contains(t[i]));
    }
    assert(marker_grammar::undotted(t) =~= t);
}

/// Whether a text is one of the names of environment variables.
spec fn is_listed(t: Seq<char>) -> bool {
    tokenizer::variables().contains(t)
}

proof fn lemma_listed(k: int)
    requires
        0 <= k < tokenizer::variables().len(),
    ensures
        is_listed(tokenizer::variables()[k]),
{
}

proof fn lemma_dotted_names()
    ensures
        marker_grammar::undotted("os.name"@) == "os_name"@,
        marker_grammar::undotted("sys.platform"@) == "sys_platform"@,
        marker_grammar::undotted("platform.version"@) == "platform_version"@,
        marker_grammar::undotted("platform.machine"@) == "platform_machine"@,
        marker_grammar::undotted("platform.python_implementation"@)
            == "platform_python_implementation"@,
        !"os_name"@.contains('.'),
        !"sys_platform"@.contains('.'),
        !"platform_version"@.contains('.'),
        !"platform_machine"@.contains('.'),
        !"platform_python_implementation"@.contains('.'),
        "os_name"@ != "python_implementation"@,
        "sys_platform"@ != "python_implementation"@,
        "platform_version"@ != "python_implementation"@,
        "platform_machine"@ != "python_implementation"@,
        "platform_python_implementation"@ != "python_implementation"@,
{
    reveal_strlit("os.name");
    reveal_strlit("os_name");
    reveal_strlit("sys.platform");
    reveal_strlit("sys_platform");
    reveal_strlit("platform.version");
    reveal_strlit("platform_version");
    reveal_strlit("platform.machine");
    reveal_strlit("platform_machine");
    reveal_strlit("platform.python_implementation");
    reveal_strlit("platform_python_implementation");
    reveal_strlit("python_implementation");
    assert(marker_grammar::undotted("os.name"@) =~= "os_name"@);
    assert(marker_grammar::undotted("sys.platform"@) =~= "sys_platform"@);
    assert(marker_grammar::undotted("platform.version"@) =~= "platform_version"@);
    assert(marker_grammar::undotted("platform.machine"@) =~= "platform_machine"@);
    assert(marker_grammar::undotted("platform.python_implementation"@)
        =~= "platform_python_implementation"@);
    assert("os_name"@.len() != "python_implementation"@.len());
    assert("sys_platform"@.len() != "python_implementation"@.len());
    assert("platform_version"@.len() != "python_implementation"@.len());
    assert("platform_machine"@.len() != "python_implementation"@.len());
    assert("platform_python_implementation"@.len() != "python_implementation"@.len());
}

proof fn lemma_plain_names()
    ensures
        !"python_version"@.contains('.'),
        !"python_full_version"@.contains('.'),
        !"platform_release"@.contains('.'),
        !"platform_system"@.contains('.'),
        !"python_implementation"@.contains('.'),
        !"implementation_name"@.contains('.'),
        !"implementation_version"@.contains('.'),
        !"extras"@.contains('.'),
        !"extra"@.contains('.'),
        !"dependency_groups"@.contains('.'),
{
    reveal_strlit("python_version");
    reveal_strlit("python_full_version");
    reveal_strlit("platform_release");
    reveal_strlit("platform_system");
    reveal_strlit("python_implementation");
    reveal_strlit("implementation_name");
    reveal_strlit("implementation_version");
    reveal_strlit("extras");
    reveal_strlit("extra");
    reveal_strlit("dependency_groups");
}

/// The environment variable that a listed name stands for is in canonical form.
proof fn lemma_variable(t: Seq<char>)
    requires
        is_listed(t),
    ensures
        marker_text::is_variable(marker_grammar::variable(t)),
{
    let words = tokenizer::variables();
    let k = choose|k: int| 0 <= k < words.len() && words[k] == t;
    lemma_dotted_names();
    lemma_plain_names();
    lemma_listed(2);
    lemma_listed(4);
    lemma_listed(8);
    lemma_listed(10);
    lemma_listed(12);
    lemma_listed(k);
    if k == 3 || k == 5 || k == 9 || k == 11 || k == 13 {
    } else {
        assert(!t.contains('.'));
        lemma_undotted(t);
    }
}

proof fn lemma_read_var_shape(s: Seq<char>, i: nat)
    ensures
        marker_grammar::read_var(s, i) matches Ok((v, _)) ==> can_stand(v, false),
{
    reveal(marker_grammar::read_var);
    if let Some(n) = marker_grammar::token(s, i, Rule::Variable) {
        lemma_first_word(text::after(s, i), tokenizer::variables());
        lemma_variable(text::head(text::after(s, i), n));
    }
}

proof fn lemma_read_item_shape(s: Seq<char>, i: nat)
    ensures
        marker_grammar::read_item(s, i) matches Ok((t, _)) ==> is_part(t, false),
{
    reveal(marker_grammar::read_item);
    let i0 = marker_grammar::blank(s, i);
    lemma_read_var_shape(s, i0);
    if let Ok((lhs, j)) = marker_grammar::read_var(s, i0) {
        if let Ok((op, k)) = marker_grammar::read_op(s, marker_grammar::blank(s, j)) {
            lemma_read_var_shape(s, marker_grammar::blank(s, k));
        }
    }
}

proof fn lemma_read_atom_shape(s: Seq<char>, i: nat)
    ensures
        marker_grammar::read_atom(s, i) matches Ok((t, _)) ==> is_part(t, false),
    decreases marker_grammar::left(s, i), 0nat,
{
    let j = marker_grammar::blank(s, i);
    if i > s.len() {
    } else if marker_grammar::token(s, j, Rule::LeftParenthesis) is Some {
        text::lemma_run_len(Class::Blank, text::after(s, i));
        lemma_read_marker_shape(s, marker_grammar::blank(s, j + 1));
    } else {
        lemma_read_item_shape(s, j);
    }
}

/// What is read as a marker at a place has the shape of one.
pub proof fn lemma_read_marker_shape(s: Seq<char>, i: nat)
    ensures
        marker_grammar::read_marker(s, i) matches Ok((l, _)) ==> is_marker(l, false),
    decreases marker_grammar::left(s, i), 2nat,
{
    lemma_read_atom_shape(s, i);
    if let Ok((t, j)) = marker_grammar::read_atom(s, i) {
        if i <= j {
            let one = seq![t];
            assert(is_marker(one, false)) by {
                assert forall|k: int|
                    #![trigger one[k]]
                    0 <= k < one.len() implies if k % 2 == 0 {
                    is_part(one[k], false)
                } else {
                    one[k] == Tree::And || one[k] == Tree::Or
                } by {}
            }
            lemma_read_more_shape(s, j, one);
        }
    }
}

proof fn lemma_read_more_shape(s: Seq<char>, i: nat, l: Seq<Tree>)
    requires
        is_marker(l, false),
    ensures
        marker_grammar::read_more(s, i, l) matches Ok((m, _)) ==> is_marker(m, false),
    decreases marker_grammar::left(s, i), 1nat,
{
    if let Some(n) = marker_grammar::token(s, i, Rule::BoolOp) {
        if i < s.len() && 0 < n {
            lemma_read_atom_shape(s, i + n);
            let joiner = if text::head(text::after(s, i), n) == "or"@ {
                Tree::Or
            } else {
                Tree::And
            };
            if let Ok((t, j)) = marker_grammar::read_atom(s, i + n) {
                if i + n <= j {
                    let m = l.push(joiner).push(t);
                    assert(is_marker(m, false)) by {
                        assert forall|k: int|
                            #![trigger m[k]]
                            0 <= k < m.len() implies if k % 2 == 0 {
                            is_part(m[k], false)
                        } else {
                            m[k] == Tree::And || m[k] == Tree::Or
                        } by {
                            if k < l.len() {
                                assert(m[k] == l[k]);
                            }
                        }
                    }
                    lemma_read_more_shape(s, j, m);
                }
            }
        }
    }
}

/// What is read as a marker has the shape of one.
pub proof fn law_read_shape(s: Seq<char>)
    ensures
        marker_grammar::read_full(s) matches Ok(l) ==> is_marker(l, false),
{
    lemma_read_marker_shape(s, 0);
}

// --- Normal form. ---

/// The parts of a marker in normal form, one by one.
proof fn lemma_normal_list(l: Seq<Tree>)
    ensures
        marker_grammar::normal_list(l).len() == l.len(),
        forall|i: int|
            0 <= i < l.len() ==> #[trigger] marker_grammar::normal_list(l)[i]
                == marker_grammar::normal(l[i]),
    decreases l.len(),
{
    if l.len() > 0 {
        lemma_normal_list(l.drop_last());
        let n = marker_grammar::normal_list(l);
        assert forall|i: int| 0 <= i < l.len() implies #[trigger] n[i] == marker_grammar::normal(
            l[i],
        ) by {
            if i < l.len() - 1 {
                assert(n[i] == marker_grammar::normal_list(l.drop_last())[i]);
            }
        }
    }
}

proof fn lemma_normal_add(a: Seq<Tree>, b: Seq<Tree>)
    ensures
        marker_grammar::normal_list(a + b) == marker_grammar::normal_list(a)
            + marker_grammar::normal_list(b),
{
    lemma_normal_list(a);
    lemma_normal_list(b);
    lemma_normal_list(a + b);
    assert(marker_grammar::normal_list(a + b) =~= marker_grammar::normal_list(a)
        + marker_grammar::normal_list(b));
}

proof fn lemma_normal_one(t: Tree)
    ensures
        marker_grammar::normal_list(seq![t]) == seq![marker_grammar::normal(t)],
{
    lemma_normal_list(seq![t]);
    assert(marker_grammar::normal_list(seq![t]) =~= seq![marker_grammar::normal(t)]);
}

proof fn lemma_normal_parts(t: Tree, first: bool)
    ensures
        parts(marker_grammar::normal(t), first) == marker_grammar::normal_list(parts(t, first)),
    decreases t, 0nat,
{
    match t {
        Tree::List(l) => {
            lemma_normal_list_parts(l, first);
        },
        _ => {
            lemma_normal_one(t);
        },
    }
}

proof fn lemma_normal_list_parts(l: Seq<Tree>, first: bool)
    ensures
        list_parts(marker_grammar::normal_list(l), first) == marker_grammar::normal_list(
            list_parts(l, first),
        ),
    decreases l, 2nat,
{
    let n = marker_grammar::normal_list(l);
    lemma_normal_list(l);
    if l.len() == 1 && (l[0] is List || l[0] is Item) {
        lemma_normal_parts(l[0], first);
        assert(n[0] == marker_grammar::normal(l[0]));
    } else {
        if l.len() == 1 {
            assert(n[0] == marker_grammar::normal(l[0]));
        }
        lemma_normal_all_parts(l);
        if !first {
            lemma_normal_one(Tree::List(all_parts(l)));
        }
    }
}

proof fn lemma_normal_all_parts(l: Seq<Tree>)
    ensures
        all_parts(marker_grammar::normal_list(l)) == marker_grammar::normal_list(all_parts(l)),
    decreases l, 1nat,
{
    let n = marker_grammar::normal_list(l);
    lemma_normal_list(l);
    if l.len() > 0 {
        let t = l.drop_last();
        lemma_normal_all_parts(t);
        lemma_normal_parts(l.last(), false);
        assert(n.drop_last() =~= marker_grammar::normal_list(t));
        assert(n.last() == marker_grammar::normal(l.last()));
        lemma_normal_add(all_parts(t), parts(l.last(), false));
    } else {
        assert(n =~= l);
    }
}

/// A marker in normal form has the shape of a marker.
pub proof fn lemma_normal_shape(l: Seq<Tree>)
    requires
        is_marker(l, false),
    ensures
        is_marker(marker_grammar::normal_list(l), false),
    decreases l,
{
    let n = marker_grammar::normal_list(l);
    lemma_normal_list(l);
    assert forall|i: int|
        #![trigger n[i]]
        0 <= i < n.len() implies if i % 2 == 0 {
        is_part(n[i], false)
    } else {
        n[i] == Tree::And || n[i] == Tree::Or
    } by {
        assert(n[i] == marker_grammar::normal(l[i]));
        if i % 2 == 0 {
            assert(is_part(l[i], false));
            if let Tree::List(inner) = l[i] {
                lemma_normal_shape(inner);
            }
        } else {
            assert(l[i] == Tree::And || l[i] == Tree::Or);
        }
    }
}

/// Where a marker is in normal form, so is what its text is read back as.
pub proof fn lemma_normal_reread(m: Seq<Tree>)
    requires
        marker_grammar::normal_list(m) == m,
    ensures
        marker_grammar::normal_list(list_parts(m, true)) == list_parts(m, true),
{
    lemma_normal_list_parts(m, true);
}

/// Writing a marker: its text is read back as a marker with the same text, which makes the two
/// equal, and which says the same of every environment. The texts in the marker have to be
/// readable from between double quotes, and the names of extras in it have to be in normalized
/// form.
pub proof fn law_marker_text(m: Seq<Tree>, env: spec_fn(Seq<char>) -> Option<Value>)
    requires
        is_marker(m, true),
        marker_grammar::normal_list(m) == m,
    ensures
        marker_grammar::read_full(marker_grammar::list_text(m, true)) matches Ok(l) && {
            let again = marker_grammar::normal_list(l);
            &&& marker_grammar::list_text(again, true) == marker_grammar::list_text(m, true)
            &&& evaluation::eval_list(again, env) == evaluation::eval_list(m, env)
        },
{
    lemma_reread(m);
    lemma_normal_list_parts(m, true);
    law_parts_meaning(m, true, env);
}

/// Reading, writing and reading again: a text that says a marker, the canonical text of that
/// marker, and what the latter says. The texts in the marker have to be readable from between
/// double quotes, and the names of extras in it have to have normalized forms in lower case.
pub proof fn law_marker_again(s: Seq<char>, env: spec_fn(Seq<char>) -> Option<Value>)
    requires
        marker_grammar::read_full(s) matches Ok(l) && settles(Tree::List(l)) && has_quotable_values(
            Tree::List(marker_grammar::normal_list(l)),
        ),
    ensures
        ({
            let m = marker_grammar::normal_list(marker_grammar::read_full(s)->Ok_0);
            marker_grammar::read_full(marker_grammar::list_text(m, true)) matches Ok(l) && {
                let again = marker_grammar::normal_list(l);
                &&& marker_grammar::list_text(again, true) == marker_grammar::list_text(m, true)
                &&& evaluation::eval_list(again, env) == evaluation::eval_list(m, env)
            }
        }),
{
    let l = marker_grammar::read_full(s)->Ok_0;
    law_read_shape(s);
    lemma_normal_shape(l);
    law_normal_again(Tree::List(l));
    law_marker_values(marker_grammar::normal_list(l));
    law_marker_text(marker_grammar::normal_list(l), env);
}

/// Equal markers say the same of every environment, where the texts in them are readable from
/// between double quotes.
pub proof fn law_equal_markers(
    a: Seq<Tree>,
    b: Seq<Tree>,
    env: spec_fn(Seq<char>) -> Option<Value>,
)
    requires
        is_marker(a, true),
        is_marker(b, true),
        marker_grammar::list_text(a, true) == marker_grammar::list_text(b, true),
    ensures
        evaluation::eval_list(a, env) == evaluation::eval_list(b, env),
{
    lemma_reread(a);
    lemma_reread(b);
    law_parts_meaning(a, true, env);
    law_parts_meaning(b, true, env);
}

/// A text without quotes and backslashes is readable from between double quotes.
pub proof fn law_plain_value(t: Seq<char>)
    requires
        !t.contains('"'),
        !t.contains('\\'),
    ensures
        marker_text::is_value(t),
    decreases t.len(),
{
    if t.len() > 0 {
        let u = t.skip(1);
        if u.contains('"') {
            let i = choose|i: int| 0 <= i < u.len() && u[i] == '"';
            assert(t[i + 1] == '"');
        }
        if u.contains('\\') {
            let i = choose|i: int| 0 <= i < u.len() && u[i] == '\\';
            assert(t[i + 1] == '\\');
        }
        law_plain_value(u);
        assert(t.contains(t[0]));
        assert(seq![t[0]] + u =~= t);
    } else {
        assert(t =~= Seq::empty());
    }
}

/// Whether the texts in a marker are readable from between double quotes.
pub open spec fn has_quotable_values(t: Tree) -> bool
    decreases t,
{
    match t {
        Tree::Item { lhs, op, rhs } => is_quotable(lhs) && is_quotable(rhs),
        Tree::List(l) => forall|i: int| 0 <= i < l.len() ==> has_quotable_values(#[trigger] l[i]),
        _ => true,
    }
}

/// Whether an operand is no text that cannot be read from between double quotes.
pub open spec fn is_quotable(v: Operand) -> bool {
    v matches Operand::Value(t) ==> marker_text::is_value(t)
}

proof fn lemma_part(t: Tree)
    requires
        is_part(t, false),
        has_quotable_values(t),
    ensures
        is_part(t, true),
    decreases t,
{
    match t {
        Tree::List(l) => {
            assert(is_marker(l, false));
            assert forall|i: int|
                #![trigger l[i]]
                0 <= i < l.len() implies if i % 2 == 0 {
                is_part(l[i], true)
            } else {
                l[i] == Tree::And || l[i] == Tree::Or
            } by {
                assert(has_quotable_values(l[i]));
                if i % 2 == 0 {
                    assert(is_part(l[i], false));
                    lemma_part(l[i]);
                }
            }
            assert(is_marker(l, true));
        },
        _ => {},
    }
}

/// A marker whose texts are readable from between double quotes is read back from its text.
pub proof fn law_marker_values(l: Seq<Tree>)
    requires
        is_marker(l, false),
        has_quotable_values(Tree::List(l)),
    ensures
        is_marker(l, true),
{
    assert(is_part(Tree::List(l), false));
    lemma_part(Tree::List(l));
    assert(is_part(Tree::List(l), true));
}

/// Whether the names of extras in a marker have normalized forms in lower case, as names of
/// ASCII characters do.
pub open spec fn settles(t: Tree) -> bool
    decreases t,
{
    match t {
        Tree::Item { lhs, op, rhs } => {
            &&& marker_grammar::is_extra(lhs) && rhs is Value ==> names::settles(
                evaluation::operand(rhs),
            )
            &&& lhs is Value && marker_grammar::is_extra(rhs) ==> names::settles(
                evaluation::operand(lhs),
            )
        },
        Tree::List(l) => forall|i: int| 0 <= i < l.len() ==> settles(#[trigger] l[i]),
        _ => true,
    }
}

/// Whether the texts in a marker are of ASCII characters.
pub open spec fn is_ascii(t: Tree) -> bool
    decreases t,
{
    match t {
        Tree::Item { lhs, op, rhs } => text::is_ascii(evaluation::operand(lhs)) && text::is_ascii(
            evaluation::operand(rhs),
        ),
        Tree::List(l) => forall|i: int| 0 <= i < l.len() ==> is_ascii(#[trigger] l[i]),
        _ => true,
    }
}

/// Names of extras of ASCII characters have normalized forms in lower case.
pub proof fn law_ascii_settles(t: Tree)
    requires
        is_ascii(t),
    ensures
        settles(t),
    decreases t,
{
    match t {
        Tree::Item { lhs, op, rhs } => {
            names::law_ascii_settles(evaluation::operand(lhs));
            names::law_ascii_settles(evaluation::operand(rhs));
        },
        Tree::List(l) => {
            assert forall|i: int| 0 <= i < l.len() implies settles(#[trigger] l[i]) by {
                assert(is_ascii(l[i]));
                law_ascii_settles(l[i]);
            }
        },
        _ => {},
    }
}

/// Bringing a marker into normal form again changes nothing, where the names of extras in it
/// have normalized forms in lower case.
pub proof fn law_normal_again(t: Tree)
    requires
        settles(t),
    ensures
        marker_grammar::normal(marker_grammar::normal(t)) == marker_grammar::normal(t),
    decreases t,
{
    match t {
        Tree::Item { lhs, op, rhs } => {
            if marker_grammar::is_extra(lhs) && rhs is Value {
                names::law_canonical_again(evaluation::operand(rhs));
            } else if lhs is Value && marker_grammar::is_extra(rhs) {
                names::law_canonical_again(evaluation::operand(lhs));
            }
        },
        Tree::List(l) => {
            let n = marker_grammar::normal_list(l);
            lemma_normal_list(l);
            lemma_normal_list(n);
            assert forall|i: int| 0 <= i < l.len() implies marker_grammar::normal(#[trigger] n[i])
                == n[i] by {
                assert(settles(l[i]));
                law_normal_again(l[i]);
            }
            assert(marker_grammar::normal_list(n) =~= n);
        },
        _ => {},
    }
}

// --- What a marker says. ---

/// Parentheses around a whole marker change neither its text nor what it says.
pub proof fn law_parentheses(l: Seq<Tree>, env: spec_fn(Seq<char>) -> Option<Value>)
    ensures
        marker_grammar::list_text(seq![Tree::List(l)], true) == marker_grammar::list_text(l, true),
        evaluation::eval_list(seq![Tree::List(l)], env) == evaluation::eval_list(l, env),
{
    let one = seq![Tree::List(l)];
    let none = Seq::<Tree>::empty();
    assert(one.drop_last() =~= none);
    assert(evaluation::eval_parts(none, env) == Ok::<(bool, bool), Failure>((false, true)));
    assert(one[0] == Tree::List(l));
    assert(marker_grammar::tree_text(one[0], true) == marker_grammar::list_text(l, true));
    assert(one.last() == Tree::List(l));
}

proof fn lemma_or(a: Seq<Tree>, b: Seq<Tree>, env: spec_fn(Seq<char>) -> Option<Value>)
    ensures
        match evaluation::eval_parts(a, env) {
            Err(e) => evaluation::eval_parts(a.push(Tree::Or) + b, env) == Err::<
                (bool, bool),
                Failure,
            >(e),
            Ok((some, group)) => match evaluation::eval_parts(b, env) {
                Err(e) => evaluation::eval_parts(a.push(Tree::Or) + b, env) == Err::<
                    (bool, bool),
                    Failure,
                >(e),
                Ok((some2, group2)) => evaluation::eval_parts(a.push(Tree::Or) + b, env) == Ok::<
                    (bool, bool),
                    Failure,
                >((some || group || some2, group2)),
            },
        },
    decreases b.len(),
{
    let c = a.push(Tree::Or) + b;
    if b.len() == 0 {
        assert(c =~= a.push(Tree::Or));
        assert(c.drop_last() =~= a);
        assert(c.last() == Tree::Or);
    } else {
        lemma_or(a, b.drop_last(), env);
        assert(c.drop_last() =~= a.push(Tree::Or) + b.drop_last());
        assert(c.last() == b.last());
    }
}

/// `or` between two markers: one of them holds. The first that fails makes the whole fail.
pub proof fn law_or(a: Seq<Tree>, b: Seq<Tree>, env: spec_fn(Seq<char>) -> Option<Value>)
    ensures
        evaluation::eval_list(a.push(Tree::Or) + b, env) == match evaluation::eval_list(a, env) {
            Err(e) => Err(e),
            Ok(x) => match evaluation::eval_list(b, env) {
                Err(e) => Err(e),
                Ok(y) => Ok(x || y),
            },
        },
{
    lemma_or(a, b, env);
}

/// `and` between two parts: both of them hold. The first that fails makes the whole fail. Since
/// `or` parts a marker first, `and` binds more tightly.
pub proof fn law_and(s: Tree, t: Tree, env: spec_fn(Seq<char>) -> Option<Value>)
    requires
        s is Item || s is List,
        t is Item || t is List,
    ensures
        evaluation::eval_list(seq![s, Tree::And, t], env) == match evaluation::eval_list(
            seq![s],
            env,
        ) {
            Err(e) => Err(e),
            Ok(x) => match evaluation::eval_list(seq![t], env) {
                Err(e) => Err(e),
                Ok(y) => Ok(x && y),
            },
        },
{
    let none = Seq::<Tree>::empty();
    let a = seq![s];
    let b = seq![s, Tree::And];
    let c = seq![s, Tree::And, t];
    let d = seq![t];
    assert(a.drop_last() =~= none && b.drop_last() =~= a && c.drop_last() =~= b && d.drop_last()
        =~= none);
    assert(a.last() == s && b.last() == Tree::And && c.last() == t && d.last() == t);
    assert(evaluation::eval_parts(none, env) == Ok::<(bool, bool), Failure>((false, true)));
    assert(evaluation::eval_parts(b, env) == evaluation::eval_parts(a, env));
}

/// A variable that the environment does not have makes a comparison fail, and names itself.
pub proof fn law_undefined(
    name: Seq<char>,
    op: MarkerOp,
    rhs: Operand,
    env: spec_fn(Seq<char>) -> Option<Value>,
)
    requires
        env(name) is None,
    ensures
        evaluation::eval_item(Operand::Variable(name), op, rhs, env) == Err::<bool, Failure>(
            Failure::UndefinedEnvironmentName(name),
        ),
{
}

/// Names of extras are compared in normalized form: a marker that compares `extra` with a name
/// holds where the environment gives a name with the same normalized form.
pub proof fn law_extra(name: Seq<char>, m: Map<String, String>)
    requires
        outside::has_key(m, "extra"@),
    ensures
        ({
            let item = Tree::Item {
                lhs: Operand::Variable("extra"@),
                op: MarkerOp::Version(Operator::Equal),
                rhs: Operand::Value(name),
            };
            evaluation::eval_list(seq![marker_grammar::normal(item)], markers::text_env(m)) == Ok::<
                bool,
                Failure,
            >(
                names::canonical_name(outside::value_of(m, "extra"@)@) == names::canonical_name(
                    name,
                ),
            )
        }),
{
    reveal_strlit("extra");
    reveal_strlit("extras");
    reveal_strlit("dependency_groups");
    reveal_strlit("implementation_version");
    reveal_strlit("platform_release");
    reveal_strlit("python_full_version");
    reveal_strlit("python_version");
    let key = "extra"@;
    assert(key.len() == 5);
    assert(key != "extras"@ && key != "dependency_groups"@ && key != "implementation_version"@
        && key != "platform_release"@ && key != "python_full_version"@ && key
        != "python_version"@);
    let item = Tree::Item {
        lhs: Operand::Variable(key),
        op: MarkerOp::Version(Operator::Equal),
        rhs: Operand::Value(name),
    };
    let one = seq![marker_grammar::normal(item)];
    let none = Seq::<Tree>::empty();
    let env = markers::text_env(m);
    assert(one.drop_last() =~= none);
    assert(evaluation::eval_parts(none, env) == Ok::<(bool, bool), Failure>((false, true)));
    assert(one.last() == marker_grammar::normal(item));
}

/// A lock file has the sets `extras` and `dependency_groups` even where they are not given:
/// nothing is a member of them.
pub proof fn law_lock_file(name: Seq<char>, key: Seq<char>, m: Map<String, markers::EnvValue>)
    requires
        evaluation::is_set_key(key),
        !outside::has_key(m, key),
    ensures
        evaluation::eval_item(
            Operand::Value(name),
            MarkerOp::In,
            Operand::Variable(key),
            markers::value_env(m, markers::EvaluateContext::LockFile),
        ) == Ok::<bool, Failure>(false),
{
}

/// An environment of texts says the same as one of values that are those texts, where nothing
/// is added to it.
pub proof fn law_same_environment(
    l: Seq<Tree>,
    m: Map<String, String>,
    n: Map<String, markers::EnvValue>,
)
    requires
        forall|key: Seq<char>| #[trigger]
            outside::has_key(m, key) <==> outside::has_key(n, key),
        forall|key: Seq<char>| #[trigger]
            outside::has_key(m, key) ==> markers::env_value(outside::value_of(n, key))
                == Value::Text(outside::value_of(m, key)@),
    ensures
        evaluation::eval_list(l, markers::text_env(m)) == evaluation::eval_list(
            l,
            markers::value_env(n, markers::EvaluateContext::Requirement),
        ),
{
    assert(markers::text_env(m) =~= markers::value_env(
        n,
        markers::EvaluateContext::Requirement,
    ));
}

// --- How a marker is written. ---

/// A comparison is written as its operands with the operator between them, texts in double
/// quotes.
pub proof fn law_write_item(key: Seq<char>, op: MarkerOp, t: Seq<char>)
    ensures
        marker_grammar::list_text(
            seq![
                Tree::Item { lhs: Operand::Variable(key), op, rhs: Operand::Value(t) },
            ],
            true,
        ) == key + " "@ + op.spelling() + " \""@ + t + "\""@,
        marker_grammar::list_text(
            seq![
                Tree::Item { lhs: Operand::Value(t), op, rhs: Operand::Variable(key) },
            ],
            true,
        ) == "\""@ + t + "\" "@ + op.spelling() + " "@ + key,
{
    reveal_strlit(" ");
    reveal_strlit("\"");
    reveal_strlit(" \"");
    reveal_strlit("\" ");
    let a = Tree::Item { lhs: Operand::Variable(key), op, rhs: Operand::Value(t) };
    let b = Tree::Item { lhs: Operand::Value(t), op, rhs: Operand::Variable(key) };
    assert(seq![a][0] == a && seq![b][0] == b);
    assert(marker_grammar::list_text(seq![a], true) == marker_grammar::tree_text(a, true));
    assert(marker_grammar::list_text(seq![b], true) == marker_grammar::tree_text(b, true));
    assert(marker_grammar::tree_text(a, true) =~= key + " "@ + op.spelling() + " \""@ + t + "\""@);
    assert(marker_grammar::tree_text(b, true) =~= "\""@ + t + "\" "@ + op.spelling() + " "@ + key);
}

/// A marker that begins with a comparison, with one more part behind `and` or `or`: the word
/// and the part are written behind it, with spaces between. Comparisons stand as they are, and
/// markers of several parts in parentheses.
pub proof fn law_write_more(l: Seq<Tree>, or: bool, t: Tree)
    requires
        l.len() > 0,
        l[0] is Item,
        t matches Tree::List(inner) ==> inner.len() > 1,
        t is Item || t is List,
    ensures
        ({
            let joiner = if or {
                Tree::Or
            } else {
                Tree::And
            };
            marker_grammar::list_text(l.push(joiner).push(t), true) == marker_grammar::list_text(
                l,
                true,
            ) + (if or {
                " or "@
            } else {
                " and "@
            }) + match t {
                Tree::List(inner) => "("@ + marker_grammar::list_text(inner, true) + ")"@,
                _ => marker_grammar::list_text(seq![t], true),
            }
        }),
{
    reveal_strlit(" ");
    reveal_strlit("or");
    reveal_strlit("and");
    reveal_strlit(" or ");
    reveal_strlit(" and ");
    let joiner = if or {
        Tree::Or
    } else {
        Tree::And
    };
    let word = if or {
        "or"@
    } else {
        "and"@
    };
    let a = l.push(joiner);
    let b = a.push(t);
    assert(a.drop_last() =~= l);
    assert(b.drop_last() =~= a);
    assert(a.last() == joiner && b.last() == t);
    let ts = marker_grammar::texts(l);
    let u = marker_grammar::tree_text(t, false);
    assert(marker_grammar::tree_text(joiner, false) == word);
    assert(marker_grammar::texts(a) == marker_grammar::texts(a.drop_last()).push(
        marker_grammar::tree_text(a.last(), false),
    ));
    assert(marker_grammar::texts(a) =~= ts.push(word));
    assert(marker_grammar::texts(b) =~= ts.push(word).push(u));
    marker_text::lemma_texts(l);
    text::lemma_join_push(ts, word, " "@);
    text::lemma_join_push(ts.push(word), u, " "@);
    lemma_first_item(l);
    assert(marker_grammar::list_text(b, true) =~= marker_grammar::list_text(l, true) + " "@ + word
        + " "@ + u);
    match t {
        Tree::List(inner) => {
            assert(u == marker_grammar::list_text(inner, false));
            assert(u =~= "("@ + marker_grammar::list_text(inner, true) + ")"@);
        },
        _ => {
            assert(seq![t][0] == t);
            assert(marker_grammar::list_text(seq![t], true) == marker_grammar::tree_text(t, true));
        },
    }
    let both = if or {
        " or "@
    } else {
        " and "@
    };
    assert(" "@ + word + " "@ =~= both);
    assert(marker_grammar::list_text(b, true) =~= marker_grammar::list_text(l, true) + (" "@ + word
        + " "@) + u);
}

/// A marker that begins with a comparison is written as its parts with spaces between them.
proof fn lemma_first_item(l: Seq<Tree>)
    requires
        l.len() > 0,
        l[0] is Item,
    ensures
        marker_grammar::list_text(l, true) == text::join(marker_grammar::texts(l), " "@),
{
    if l.len() == 1 {
        let none = Seq::<Tree>::empty();
        assert(l.drop_last() =~= none);
        assert(l.last() == l[0]);
        assert(marker_grammar::texts(none) =~= Seq::empty());
        assert(marker_grammar::texts(l) =~= seq![marker_grammar::tree_text(l[0], false)]);
        assert(marker_grammar::tree_text(l[0], false) == marker_grammar::tree_text(l[0], true));
    }
}

} // verus!
