//! Reading back the canonical text of a marker.

use vstd::prelude::*;

use crate::clause;
use crate::marker_grammar::{self, MarkerOp, Operand, Tree};
use crate::outside;
use crate::text::{self, Class};
use crate::tokenizer::{self, Rule};

verus! {

// --- Words. ---

/// A lower-case letter, an underscore or a dot.
pub open spec fn is_variable_char(c: char) -> bool {
    'a' <= c <= 'z' || c == '_' || c == '.'
}

/// Whether a word can be the name of an environment variable.
pub open spec fn is_variable_text(s: Seq<char>) -> bool {
    s.len() > 0 && forall|i: int| 0 <= i < s.len() ==> is_variable_char(#[trigger] s[i])
}

proof fn lemma_variables()
    ensures
        forall|k: int|
            0 <= k < tokenizer::variables().len() ==> is_variable_text(
                #[trigger] tokenizer::variables()[k],
            ),
{
    reveal_strlit("python_version");
    reveal_strlit("python_full_version");
    reveal_strlit("os_name");
    reveal_strlit("os.name");
    reveal_strlit("sys_platform");
    reveal_strlit("sys.platform");
    reveal_strlit("platform_release");
    reveal_strlit("platform_system");
    reveal_strlit("platform_version");
    reveal_strlit("platform.version");
    reveal_strlit("platform_machine");
    reveal_strlit("platform.machine");
    reveal_strlit("platform_python_implementation");
    reveal_strlit("platform.python_implementation");
    reveal_strlit("python_implementation");
    reveal_strlit("implementation_name");
    reveal_strlit("implementation_version");
    reveal_strlit("extras");
    reveal_strlit("extra");
    reveal_strlit("dependency_groups");
    assert(is_variable_text("python_version"@));
    assert(is_variable_text("python_full_version"@));
    assert(is_variable_text("os_name"@));
    assert(is_variable_text("os.name"@));
    assert(is_variable_text("sys_platform"@));
    assert(is_variable_text("sys.platform"@));
    assert(is_variable_text("platform_release"@));
    assert(is_variable_text("platform_system"@));
    assert(is_variable_text("platform_version"@));
    assert(is_variable_text("platform.version"@));
    assert(is_variable_text("platform_machine"@));
    assert(is_variable_text("platform.machine"@));
    assert(is_variable_text("platform_python_implementation"@));
    assert(is_variable_text("platform.python_implementation"@));
    assert(is_variable_text("python_implementation"@));
    assert(is_variable_text("implementation_name"@));
    assert(is_variable_text("implementation_version"@));
    assert(is_variable_text("extras"@));
    assert(is_variable_text("extra"@));
    assert(is_variable_text("dependency_groups"@));
}

/// The length of the first word that a text begins with, where all of those have one length.
pub proof fn lemma_first_word(s: Seq<char>, words: Seq<Seq<char>>, n: nat)
    requires
        forall|k: int|
            0 <= k < words.len() && tokenizer::word_at(s, #[trigger] words[k]) ==> words[k].len()
                == n,
        exists|k: int| 0 <= k < words.len() && tokenizer::word_at(s, #[trigger] words[k]),
    ensures
        tokenizer::first_word(s, words) == Some(n),
    decreases words.len(),
{
    if !tokenizer::word_at(s, words[0]) {
        let rest = words.skip(1);
        let k = choose|k: int| 0 <= k < words.len() && tokenizer::word_at(s, #[trigger] words[k]);
        assert(rest[k - 1] == words[k]);
        assert forall|j: int|
            0 <= j < rest.len() && tokenizer::word_at(s, #[trigger] rest[j]) implies rest[j].len()
            == n by {
            assert(rest[j] == words[j + 1]);
        }
        lemma_first_word(s, rest, n);
    }
}

/// There is no first word where a text begins with none.
proof fn lemma_no_word(s: Seq<char>, words: Seq<Seq<char>>)
    requires
        forall|k: int| 0 <= k < words.len() ==> !tokenizer::word_at(s, #[trigger] words[k]),
    ensures
        tokenizer::first_word(s, words) is None,
    decreases words.len(),
{
    if words.len() > 0 {
        let rest = words.skip(1);
        assert(!tokenizer::word_at(s, words[0]));
        assert forall|j: int| 0 <= j < rest.len() implies !tokenizer::word_at(
            s,
            #[trigger] rest[j],
        ) by {
            assert(rest[j] == words[j + 1]);
        }
        lemma_no_word(s, rest);
    }
}

/// Whether a text cannot go on with a word: it is empty or begins with a space or a closing
/// parenthesis.
pub open spec fn stops(s: Seq<char>) -> bool {
    s.len() > 0 ==> s[0] == ' ' || s[0] == ')'
}

/// A single word is found where it stands.
proof fn lemma_word_alone(word: Seq<char>, rest: Seq<char>)
    requires
        stops(rest),
    ensures
        tokenizer::word_at(word + rest, word),
{
    let s = word + rest;
    assert(s.take(word.len() as int) =~= word);
    if word.len() < s.len() {
        assert(s[word.len() as int] == rest[0]);
    }
}

// --- Operands. ---

/// Whether a name is that of an environment variable, in canonical form.
pub open spec fn is_variable(t: Seq<char>) -> bool {
    &&& tokenizer::variables().contains(t)
    &&& !t.contains('.')
    &&& t != "python_implementation"@
}

/// Whether a text is read back from between double quotes.
pub open spec fn is_value(t: Seq<char>) -> bool {
    !t.contains('"') && marker_grammar::unescape(t) == Some(t)
}

/// Whether an operand is read back from its text.
pub open spec fn is_operand(v: Operand) -> bool {
    match v {
        Operand::Variable(t) => is_variable(t),
        Operand::Value(t) => is_value(t),
    }
}

proof fn lemma_read_variable(t: Seq<char>, rest: Seq<char>)
    requires
        is_variable(t),
        stops(rest),
    ensures
        tokenizer::rule_len(Rule::Variable, t + rest) == Some(t.len()),
        marker_grammar::variable(t) == t,
        t.len() > 0,
        'a' <= t[0] <= 'z' || t[0] == '_',
{
    let words = tokenizer::variables();
    let s = t + rest;
    lemma_variables();
    let k = choose|k: int| 0 <= k < words.len() && words[k] == t;
    assert(is_variable_text(words[k]));
    lemma_word_alone(t, rest);
    assert forall|i: int| 0 <= i < t.len() implies #[trigger] t[i] != '.' && is_variable_char(
        t[i],
    ) by {
        assert(t.contains(t[i]));
        assert(is_variable_char(words[k][i]));
    }
    assert forall|j: int|
        0 <= j < words.len() && tokenizer::word_at(s, #[trigger] words[j]) implies words[j].len()
        == t.len() by {
        let w = words[j];
        assert(is_variable_text(w));
        assert(s.take(w.len() as int) == w);
        if w.len() < t.len() {
            assert(s[w.len() as int] == t[w.len() as int]);
            assert(outside::is_word(t[w.len() as int]));
        } else if w.len() > t.len() {
            assert(s.take(w.len() as int)[t.len() as int] == rest[0]);
            assert(is_variable_char(w[t.len() as int]));
        }
    }
    lemma_first_word(s, words, t.len());
    assert(marker_grammar::undotted(t) =~= t);
}

/// A text that begins with no character of a name has no name at its head.
pub proof fn lemma_no_variable(s: Seq<char>)
    requires
        s.len() > 0,
        !is_variable_char(s[0]),
    ensures
        tokenizer::rule_len(Rule::Variable, s) is None,
{
    let words = tokenizer::variables();
    lemma_variables();
    assert forall|j: int| 0 <= j < words.len() implies !tokenizer::word_at(
        s,
        #[trigger] words[j],
    ) by {
        let w = words[j];
        assert(is_variable_text(w));
        if tokenizer::word_at(s, w) {
            assert(s.take(w.len() as int)[0] == s[0]);
            assert(is_variable_char(w[0]));
        }
    }
    lemma_no_word(s, words);
}

/// What follows a place of a source.
pub open spec fn at(s: Seq<char>, i: nat, t: Seq<char>) -> bool {
    i <= s.len() && text::after(s, i) == t
}

/// Going on behind what was read.
pub proof fn lemma_at(s: Seq<char>, i: nat, a: Seq<char>, b: Seq<char>)
    requires
        at(s, i, a + b),
    ensures
        at(s, i + a.len(), b),
        text::head(text::after(s, i), a.len()) == a,
{
    assert(text::after(s, i + a.len()) =~= text::after(text::after(s, i), a.len()));
    assert(text::after(a + b, a.len()) =~= b);
    assert(text::head(a + b, a.len()) =~= a);
}

/// There is nothing to skip before what is not blank.
pub proof fn lemma_not_blank(s: Seq<char>, i: nat)
    requires
        i <= s.len(),
        i < s.len() ==> s[i as int] != ' ' && s[i as int] != '\t',
    ensures
        marker_grammar::blank(s, i) == i,
{
    let t = text::after(s, i);
    if t.len() > 0 {
        assert(t[0] == s[i as int]);
    }
}

/// One space is skipped before what is not blank.
pub proof fn lemma_one_blank(s: Seq<char>, i: nat)
    requires
        i < s.len(),
        s[i as int] == ' ',
        i + 1 < s.len() ==> s[i as int + 1] != ' ' && s[i as int + 1] != '\t',
    ensures
        marker_grammar::blank(s, i) == i + 1,
{
    let t = text::after(s, i);
    assert(t[0] == ' ');
    let u = t.skip(1);
    if u.len() > 0 {
        assert(u[0] == s[i as int + 1]);
    }
    assert(text::run(Class::Blank, u) == 0);
}

/// The text of an operand does not begin with a blank or a parenthesis.
proof fn lemma_operand_start(v: Operand)
    requires
        is_operand(v),
    ensures
        ({
            let t = marker_grammar::operand_text(v);
            t.len() > 0 && t[0] != ' ' && t[0] != '\t' && t[0] != '('
        }),
{
    match v {
        Operand::Variable(t) => {
            lemma_read_variable(t, Seq::empty());
        },
        Operand::Value(t) => {
            let q = marker_grammar::operand_text(v);
            assert(q[0] == '"');
        },
    }
}

/// An operand is read back.
proof fn lemma_read_operand(s: Seq<char>, i: nat, v: Operand, rest: Seq<char>)
    requires
        is_operand(v),
        at(s, i, marker_grammar::operand_text(v) + rest),
        stops(rest),
    ensures
        marker_grammar::read_var(s, i) == Ok::<(Operand, nat), tokenizer::SyntaxError>(
            (v, i + marker_grammar::operand_text(v).len()),
        ),
        at(s, i + marker_grammar::operand_text(v).len(), rest),
{
    reveal(marker_grammar::read_var);
    let t = marker_grammar::operand_text(v);
    lemma_at(s, i, t, rest);
    match v {
        Operand::Variable(name) => {
            lemma_read_variable(name, rest);
        },
        Operand::Value(inner) => {
            let x = t + rest;
            assert(x[0] == '"');
            lemma_no_variable(x);
            let body = inner + (seq!['"'] + rest);
            assert(text::after(x, 1) =~= body);
            assert(text::all_in(Class::NotQuote, inner)) by {
                assert forall|k: int| 0 <= k < inner.len() implies text::in_class(
                    Class::NotQuote,
                    #[trigger] inner[k],
                ) by {
                    assert(inner.contains(inner[k]));
                }
            }
            text::lemma_run_concat(Class::NotQuote, inner, seq!['"'] + rest);
            assert(tokenizer::quoted_len(x) == Some(inner.len() + 2));
            assert(marker_grammar::inside(t) =~= inner);
        },
    }
}

// --- Operators. ---

/// An operator is read back.
proof fn lemma_read_op(s: Seq<char>, i: nat, op: MarkerOp, rest: Seq<char>)
    requires
        at(s, i, op.spelling() + rest),
        rest.len() > 0,
        rest[0] == ' ',
    ensures
        marker_grammar::read_op(s, i) == Ok::<(MarkerOp, nat), tokenizer::SyntaxError>(
            (op, i + op.spelling().len()),
        ),
        at(s, i + op.spelling().len(), rest),
        op.spelling().len() > 0,
        op.spelling()[0] != ' ',
        op.spelling()[0] != '\t',
{
    reveal(marker_grammar::read_op);
    reveal_strlit("in");
    reveal_strlit("not");
    reveal_strlit("not in");
    let x = op.spelling() + rest;
    let word_in = seq!["in"@];
    let word_not = seq!["not"@];
    lemma_at(s, i, op.spelling(), rest);
    match op {
        MarkerOp::In => {
            lemma_word_alone("in"@, rest);
            assert(word_in[0] == "in"@);
            lemma_first_word(x, word_in, 2);
        },
        MarkerOp::NotIn => {
            assert(!tokenizer::word_at(x, "in"@)) by {
                if tokenizer::word_at(x, "in"@) {
                    assert(x.take(2)[0] == x[0]);
                }
            }
            lemma_no_word(x, word_in);
            let tail = " "@ + ("in"@ + rest);
            reveal_strlit(" ");
            assert(x =~= "not"@ + tail);
            lemma_word_alone("not"@, tail);
            assert(word_not[0] == "not"@);
            lemma_first_word(x, word_not, 3);
            lemma_at(s, i, "not"@, tail);
            let y = text::after(s, i + 3);
            assert(y == tail);
            let z = "in"@ + rest;
            assert(y.skip(1) =~= z);
            assert(text::run(Class::Blank, z) == 0);
            assert(text::run(Class::Blank, y) == 1);
            lemma_at(s, i + 3, " "@, z);
            lemma_word_alone("in"@, rest);
            assert(word_in[0] == "in"@);
            lemma_first_word(z, word_in, 2);
        },
        MarkerOp::Version(o) => {
            clause::lemma_operator_at(o, rest);
            clause::lemma_spellings();
            assert(!tokenizer::word_at(x, "in"@)) by {
                if tokenizer::word_at(x, "in"@) {
                    assert(x.take(2)[0] == x[0]);
                }
            }
            lemma_no_word(x, word_in);
            assert(!tokenizer::word_at(x, "not"@)) by {
                if tokenizer::word_at(x, "not"@) {
                    assert(x.take(3)[0] == x[0]);
                }
            }
            lemma_no_word(x, word_not);
        },
    }
}

// --- Markers in canonical form. ---

/// Whether a comparison or a marker in parentheses is read back from its text.
pub open spec fn is_atom(t: Tree) -> bool
    decreases t,
{
    match t {
        Tree::Item { lhs, op, rhs } => is_operand(lhs) && is_operand(rhs),
        Tree::List(l) => l.len() >= 3 && is_canonical(l),
        _ => false,
    }
}

/// Whether a marker is read back from its text: comparisons and markers in parentheses, with
/// words between them, where parentheses are around more than one part.
pub open spec fn is_canonical(l: Seq<Tree>) -> bool
    decreases l,
{
    &&& l.len() % 2 == 1
    &&& forall|i: int|
        #![trigger l[i]]
        0 <= i < l.len() ==> if i % 2 == 0 {
            is_atom(l[i])
        } else {
            l[i] == Tree::And || l[i] == Tree::Or
        }
}

/// The texts of the parts of a marker, one by one.
pub proof fn lemma_texts(l: Seq<Tree>)
    ensures
        marker_grammar::texts(l).len() == l.len(),
        forall|i: int|
            0 <= i < l.len() ==> #[trigger] marker_grammar::texts(l)[i]
                == marker_grammar::tree_text(l[i], false),
    decreases l.len(),
{
    if l.len() > 0 {
        lemma_texts(l.drop_last());
        let ts = marker_grammar::texts(l);
        assert forall|i: int| 0 <= i < l.len() implies #[trigger] ts[i]
            == marker_grammar::tree_text(l[i], false) by {
            if i < l.len() - 1 {
                assert(ts[i] == marker_grammar::texts(l.drop_last())[i]);
            }
        }
    }
}

/// The text of a comparison or a marker in parentheses does not begin with a blank.
proof fn lemma_atom_start(t: Tree)
    requires
        is_atom(t),
    ensures
        ({
            let u = marker_grammar::tree_text(t, false);
            u.len() > 0 && u[0] != ' ' && u[0] != '\t'
        }),
        t is Item ==> marker_grammar::tree_text(t, false)[0] != '(',
        t is List ==> marker_grammar::tree_text(t, false)[0] == '(',
{
    match t {
        Tree::Item { lhs, op, rhs } => {
            lemma_operand_start(lhs);
            assert(marker_grammar::tree_text(t, false)[0] == marker_grammar::operand_text(lhs)[0]);
        },
        Tree::List(l) => {
            reveal_strlit("(");
            assert(marker_grammar::tree_text(t, false) == marker_grammar::list_text(l, false));
        },
        _ => {},
    }
}

/// What can follow a comparison or a marker in parentheses: nothing, a closing parenthesis, or
/// a space and a word.
spec fn may_follow(rest: Seq<char>) -> bool {
    rest.len() > 0 ==> rest[0] == ')' || (rest.len() > 1 && rest[0] == ' ' && rest[1] != ' '
        && rest[1] != '\t')
}

/// The place behind what follows.
spec fn past(i: nat, rest: Seq<char>) -> nat {
    if rest.len() > 0 && rest[0] == ' ' {
        i + 1
    } else {
        i
    }
}

proof fn lemma_past(s: Seq<char>, i: nat, rest: Seq<char>)
    requires
        at(s, i, rest),
        may_follow(rest),
    ensures
        marker_grammar::blank(s, i) == past(i, rest),
        marker_grammar::blank(s, past(i, rest)) == past(i, rest),
{
    if rest.len() > 0 {
        assert(text::after(s, i)[0] == s[i as int]);
        if rest[0] == ' ' {
            assert(text::after(s, i)[1] == s[i as int + 1]);
            lemma_one_blank(s, i);
            lemma_not_blank(s, i + 1);
        } else {
            lemma_not_blank(s, i);
        }
    } else {
        assert(i == s.len());
        lemma_not_blank(s, i);
    }
}

/// A comparison is read back.
#[verifier::rlimit(30)]
proof fn lemma_read_item(
    s: Seq<char>,
    i: nat,
    lhs: Operand,
    op: MarkerOp,
    rhs: Operand,
    rest: Seq<char>,
)
    requires
        is_operand(lhs),
        is_operand(rhs),
        at(s, i, marker_grammar::item_text(lhs, op, rhs) + rest),
        may_follow(rest),
    ensures
        marker_grammar::read_item(s, i) == Ok::<(Tree, nat), tokenizer::SyntaxError>(
            (
                Tree::Item { lhs, op, rhs },
                past(i + marker_grammar::item_text(lhs, op, rhs).len(), rest),
            ),
        ),
        at(s, i + marker_grammar::item_text(lhs, op, rhs).len(), rest),
{
    reveal(marker_grammar::read_item);
    reveal_strlit(" ");
    let a = marker_grammar::operand_text(lhs);
    let o = op.spelling();
    let b = marker_grammar::operand_text(rhs);
    let r3 = b + rest;
    let r2 = " "@ + r3;
    let r1 = o + r2;
    let r0 = " "@ + r1;
    assert(marker_grammar::item_text(lhs, op, rhs) + rest =~= a + r0);
    lemma_operand_start(lhs);
    lemma_operand_start(rhs);
    assert(text::after(s, i)[0] == s[i as int]);
    lemma_not_blank(s, i);
    lemma_read_operand(s, i, lhs, r0);
    let j = i + a.len();
    lemma_at(s, j, " "@, r1);
    lemma_read_op(s, j + 1, op, r2);
    assert(text::after(s, j)[0] == s[j as int]);
    assert(text::after(s, j + 1)[0] == s[j as int + 1]);
    lemma_one_blank(s, j);
    let k = j + 1 + o.len();
    lemma_at(s, k, " "@, r3);
    assert(text::after(s, k)[0] == s[k as int]);
    assert(text::after(s, k + 1)[0] == s[k as int + 1]);
    lemma_one_blank(s, k);
    lemma_read_operand(s, k + 1, rhs, rest);
    let m = k + 1 + b.len();
    lemma_past(s, m, rest);
}

/// A comparison or a marker in parentheses is read back, from behind a blank.
#[verifier::rlimit(30)]
proof fn lemma_read_atom(s: Seq<char>, i: nat, t: Tree, rest: Seq<char>)
    requires
        is_atom(t),
        i <= s.len(),
        at(s, marker_grammar::blank(s, i), marker_grammar::tree_text(t, false) + rest),
        may_follow(rest),
    ensures
        marker_grammar::read_atom(s, i) == Ok::<(Tree, nat), tokenizer::SyntaxError>(
            (
                t,
                past(
                    marker_grammar::blank(s, i) + marker_grammar::tree_text(t, false).len(),
                    rest,
                ),
            ),
        ),
        at(s, marker_grammar::blank(s, i) + marker_grammar::tree_text(t, false).len(), rest),
    decreases t, 0nat,
{
    let j = marker_grammar::blank(s, i);
    let u = marker_grammar::tree_text(t, false);
    lemma_at(s, j, u, rest);
    lemma_atom_start(t);
    assert(text::after(s, j)[0] == u[0]);
    match t {
        Tree::Item { lhs, op, rhs } => {
            lemma_read_item(s, j, lhs, op, rhs, rest);
            lemma_past(s, j + u.len(), rest);
        },
        Tree::List(l) => {
            reveal_strlit("(");
            reveal_strlit(")");
            let body = text::join(marker_grammar::texts(l), " "@);
            let close = ")"@ + rest;
            assert(u =~= "("@ + body + ")"@);
            assert(u + rest =~= "("@ + (body + close));
            lemma_at(s, j, "("@, body + close);
            lemma_body_start(l);
            assert((body + close)[0] == body[0]);
            assert(text::after(s, j + 1)[0] == s[j as int + 1]);
            lemma_not_blank(s, j + 1);
            lemma_read_marker(s, j + 1, l, close);
            let m = j + 1 + body.len();
            assert(text::after(s, m)[0] == s[m as int]);
            lemma_not_blank(s, m);
            lemma_at(s, m, ")"@, rest);
            lemma_past(s, m + 1, rest);
            assert(m + 1 == j + u.len());
        },
        _ => {},
    }
}

/// The text of a marker does not begin with a blank.
pub proof fn lemma_body_start(l: Seq<Tree>)
    requires
        is_canonical(l),
    ensures
        ({
            let b = text::join(marker_grammar::texts(l), " "@);
            b.len() > 0 && b[0] != ' ' && b[0] != '\t'
        }),
{
    lemma_texts(l);
    assert(is_atom(l[0]));
    lemma_atom_start(l[0]);
    let ts = marker_grammar::texts(l);
    assert(ts[0] == marker_grammar::tree_text(l[0], false));
}

/// A marker is read back, from behind a blank.
#[verifier::rlimit(30)]
pub proof fn lemma_read_marker(s: Seq<char>, i: nat, l: Seq<Tree>, rest: Seq<char>)
    requires
        is_canonical(l),
        i <= s.len(),
        at(
            s,
            marker_grammar::blank(s, i),
            text::join(marker_grammar::texts(l), " "@) + rest,
        ),
        rest.len() > 0 ==> rest[0] == ')',
    ensures
        ({
            let j = marker_grammar::blank(s, i) + text::join(marker_grammar::texts(l), " "@).len();
            &&& marker_grammar::read_marker(s, i) == Ok::<
                (Seq<Tree>, nat),
                tokenizer::SyntaxError,
            >((l, j))
            &&& at(s, j, rest)
        }),
    decreases l, l.len() + 1,
{
    reveal_strlit(" ");
    let ts = marker_grammar::texts(l);
    let body = text::join(ts, " "@);
    let i0 = marker_grammar::blank(s, i);
    lemma_texts(l);
    lemma_at(s, i0, body, rest);
    assert(is_atom(l[0]));
    let first = ts[0];
    if l.len() == 1 {
        lemma_read_atom(s, i, l[0], rest);
        assert(l.take(1) =~= seq![l[0]]);
        assert(tail_text(l, 1) + rest =~= rest);
        lemma_read_more(s, i0 + body.len(), l, 1, rest);
    } else {
        let tail = text::join(ts.skip(1), " "@);
        let after = " "@ + (tail + rest);
        assert(body + rest =~= first + after);
        lemma_joiner_start(l, 1);
        assert(ts.skip(1)[0] == ts[1]);
        assert(after[1] == tail[0]);
        lemma_read_atom(s, i, l[0], after);
        let j = i0 + first.len();
        lemma_at(s, j, " "@, tail + rest);
        assert(seq![l[0]] =~= l.take(1));
        lemma_read_more(s, j + 1, l, 1, rest);
        assert(body.len() == first.len() + 1 + tail.len());
    }
}

/// The words between the parts of a marker.
proof fn lemma_joiner_start(l: Seq<Tree>, k: int)
    requires
        is_canonical(l),
        0 < k < l.len(),
        k % 2 == 1,
    ensures
        ({
            let t = text::join(marker_grammar::texts(l).skip(k), " "@);
            &&& t.len() > 0
            &&& t[0] == 'a' || t[0] == 'o'
        }),
        k + 1 < l.len(),
{
    reveal_strlit("and");
    reveal_strlit("or");
    lemma_texts(l);
    let ts = marker_grammar::texts(l);
    assert(l[k] == Tree::And || l[k] == Tree::Or);
    assert(ts[k] == marker_grammar::tree_text(l[k], false));
    assert(ts.skip(k)[0] == ts[k]);
}

/// The word for a joiner.
spec fn joiner_text(t: Tree) -> Seq<char> {
    marker_grammar::tree_text(t, false)
}

/// A word between markers is read back.
proof fn lemma_read_joiner(t: Tree, after: Seq<char>)
    requires
        t == Tree::And || t == Tree::Or,
        after.len() > 0,
        after[0] == ' ',
    ensures
        tokenizer::rule_len(Rule::BoolOp, joiner_text(t) + after) == Some(joiner_text(t).len()),
        joiner_text(t).len() > 0,
        t == (if joiner_text(t) == "or"@ {
            Tree::Or
        } else {
            Tree::And
        }),
{
    reveal_strlit("and");
    reveal_strlit("or");
    let words = tokenizer::joiners();
    let word = joiner_text(t);
    let x = word + after;
    lemma_word_alone(word, after);
    assert(words[0] == "or"@ && words[1] == "and"@);
    assert forall|j: int|
        0 <= j < words.len() && tokenizer::word_at(x, #[trigger] words[j]) implies words[j].len()
        == word.len() by {
        assert(x.take(words[j].len() as int)[0] == x[0]);
    }
    assert(words.contains(word));
    let q = choose|q: int| 0 <= q < words.len() && words[q] == word;
    assert(tokenizer::word_at(x, words[q]));
    lemma_first_word(x, words, word.len());
    assert("or"@ != "and"@) by {
        assert("or"@.len() != "and"@.len());
    }
}

/// There is no word between markers at the end of a marker.
proof fn lemma_no_joiner(rest: Seq<char>)
    requires
        rest.len() > 0 ==> rest[0] == ')',
    ensures
        tokenizer::rule_len(Rule::BoolOp, rest) is None,
{
    reveal_strlit("and");
    reveal_strlit("or");
    let words = tokenizer::joiners();
    assert forall|j: int| 0 <= j < words.len() implies !tokenizer::word_at(
        rest,
        #[trigger] words[j],
    ) by {
        let w = words[j];
        if tokenizer::word_at(rest, w) {
            assert(rest.take(w.len() as int)[0] == rest[0]);
        }
    }
    lemma_no_word(rest, words);
}

/// The text from a word between markers on.
spec fn tail_text(l: Seq<Tree>, k: int) -> Seq<char> {
    if k < l.len() {
        text::join(marker_grammar::texts(l).skip(k), " "@)
    } else {
        Seq::empty()
    }
}

/// The text from a word on: the word, a space, the next part, and the rest.
proof fn lemma_tail_text(l: Seq<Tree>, k: int)
    requires
        is_canonical(l),
        0 < k < l.len(),
        k % 2 == 1,
    ensures
        ({
            let next = marker_grammar::tree_text(l[k + 1], false);
            let more = if k + 2 < l.len() {
                " "@ + tail_text(l, k + 2)
            } else {
                Seq::empty()
            };
            &&& k + 2 <= l.len()
            &&& tail_text(l, k) == joiner_text(l[k]) + (" "@ + (next + more))
            &&& k + 2 < l.len() ==> tail_text(l, k + 2).len() > 0 && (tail_text(l, k + 2)[0] == 'a'
                || tail_text(l, k + 2)[0] == 'o')
        }),
{
    let ts = marker_grammar::texts(l);
    lemma_texts(l);
    lemma_joiner_start(l, k);
    let here = ts.skip(k);
    let next = ts.skip(k + 1);
    assert(here[0] == ts[k] && next[0] == ts[k + 1]);
    assert(here.skip(1) =~= next);
    assert(text::join(here, " "@) == here[0] + " "@ + text::join(next, " "@));
    if k + 2 < l.len() {
        lemma_joiner_start(l, k + 2);
        assert(next.skip(1) =~= ts.skip(k + 2));
        assert(text::join(next, " "@) == next[0] + " "@ + text::join(ts.skip(k + 2), " "@));
        assert(tail_text(l, k) =~= ts[k] + (" "@ + (ts[k + 1] + (" "@ + tail_text(l, k + 2)))));
    } else {
        assert(next =~= seq![ts[k + 1]]);
        assert(text::join(next, " "@) == next[0]);
        assert(tail_text(l, k) =~= ts[k] + (" "@ + (ts[k + 1] + Seq::<char>::empty())));
    }
}

/// The rest of a marker is read back.
#[verifier::rlimit(30)]
proof fn lemma_read_more(s: Seq<char>, i: nat, l: Seq<Tree>, k: int, rest: Seq<char>)
    requires
        is_canonical(l),
        0 < k <= l.len(),
        k % 2 == 1,
        at(s, i, tail_text(l, k) + rest),
        rest.len() > 0 ==> rest[0] == ')',
    ensures
        marker_grammar::read_more(s, i, l.take(k)) == Ok::<
            (Seq<Tree>, nat),
            tokenizer::SyntaxError,
        >((l, i + tail_text(l, k).len())),
        at(s, i + tail_text(l, k).len(), rest),
    decreases l, l.len() - k,
{
    lemma_at(s, i, tail_text(l, k), rest);
    if k == l.len() {
        assert(l.take(k) =~= l);
        assert(tail_text(l, k) + rest =~= rest);
        lemma_no_joiner(rest);
    } else {
        lemma_tail_text(l, k);
        assert(l[k] == Tree::And || l[k] == Tree::Or);
        assert(is_atom(l[k + 1]));
        let word = joiner_text(l[k]);
        let next = marker_grammar::tree_text(l[k + 1], false);
        let more = if k + 2 < l.len() {
            " "@ + tail_text(l, k + 2)
        } else {
            Seq::empty()
        };
        let tail = next + more + rest;
        assert(" "@.len() == 1 && " "@[0] == ' ') by {
            reveal_strlit(" ");
        }
        let after = " "@ + tail;
        assert(tail_text(l, k) + rest =~= word + after);
        lemma_at(s, i, word, after);
        lemma_read_joiner(l[k], after);
        let j = i + word.len();
        lemma_at(s, j, " "@, tail);
        lemma_atom_start(l[k + 1]);
        assert(text::after(s, j)[0] == s[j as int]);
        assert(tail[0] == next[0]);
        assert(text::after(s, j + 1)[0] == s[j as int + 1]);
        lemma_one_blank(s, j);
        let follow = more + rest;
        assert(tail =~= next + follow);
        if k + 2 < l.len() {
            assert(follow[1] == tail_text(l, k + 2)[0]);
        } else {
            assert(follow =~= rest);
        }
        assert(may_follow(follow));
        lemma_read_atom(s, j, l[k + 1], follow);
        let m = j + 1 + next.len();
        lemma_at(s, j + 1, next, follow);
        if k + 2 < l.len() {
            assert(follow =~= " "@ + (tail_text(l, k + 2) + rest));
            lemma_at(s, m, " "@, tail_text(l, k + 2) + rest);
        } else {
            assert(follow =~= tail_text(l, k + 2) + rest);
        }
        lemma_read_more(s, past(m, follow), l, k + 2, rest);
        assert(l.take(k).push(l[k]).push(l[k + 1]) =~= l.take(k + 2));
    }
}

/// Reading back what was written: a marker in canonical form is read back from its text.
#[verifier::rlimit(30)]
pub proof fn law_read_canonical(l: Seq<Tree>)
    requires
        is_canonical(l),
        l.len() == 1 ==> l[0] is Item,
    ensures
        marker_grammar::read_full(marker_grammar::list_text(l, true)) == Ok::<
            Seq<Tree>,
            tokenizer::SyntaxError,
        >(l),
{
    let s = marker_grammar::list_text(l, true);
    let body = text::join(marker_grammar::texts(l), " "@);
    lemma_texts(l);
    if l.len() == 1 {
        assert(marker_grammar::texts(l)[0] == marker_grammar::tree_text(l[0], false));
        assert(s =~= body);
    }
    assert(s == body);
    assert(text::after(s, 0) =~= body + Seq::<char>::empty());
    lemma_body_start(l);
    lemma_not_blank(s, 0);
    lemma_read_marker(s, 0, l, Seq::empty());
}

} // verus!
