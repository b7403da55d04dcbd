//! Laws of how markers are written: names of variables, quotes, operators and blanks.

use vstd::prelude::*;

use crate::clause::{self, Operator};
use crate::marker_grammar::{self, MarkerOp, Operand, Tree};
use crate::marker_text;
use crate::outside;
use crate::text::{self, Class};
use crate::tokenizer::{self, Rule, SyntaxError};

verus! {

// --- Blanks. ---

/// Whether a text is of spaces and tabs.
pub open spec fn is_blanks(s: Seq<char>) -> bool {
    forall|i: int| 0 <= i < s.len() ==> #[trigger] s[i] == ' ' || s[i] == '\t'
}

/// Whether a text does not begin with a space or a tab.
pub open spec fn no_blank(s: Seq<char>) -> bool {
    s.len() > 0 ==> s[0] != ' ' && s[0] != '\t'
}

/// Blanks are skipped.
pub proof fn lemma_blanks(s: Seq<char>, i: nat, b: Seq<char>, rest: Seq<char>)
    requires
        marker_text::at(s, i, b + rest),
        is_blanks(b),
        no_blank(rest),
    ensures
        marker_grammar::blank(s, i) == i + b.len(),
        marker_text::at(s, i + b.len(), rest),
        marker_grammar::blank(s, i + b.len()) == i + b.len(),
{
    assert(text::all_in(Class::Blank, b)) by {
        assert forall|k: int| 0 <= k < b.len() implies text::in_class(
            Class::Blank,
            #[trigger] b[k],
        ) by {}
    }
    text::lemma_run_concat(Class::Blank, b, rest);
    marker_text::lemma_at(s, i, b, rest);
    let none = Seq::<char>::empty();
    text::lemma_run_concat(Class::Blank, none, rest);
    assert(none + rest =~= rest);
}

// --- Names of variables. ---

/// The variable that a name stands for. Some names may be written with a dot.
pub open spec fn variable_of(name: Seq<char>) -> Option<Seq<char>> {
    if name == "os_name"@ || name == "os.name"@ {
        Some("os_name"@)
    } else if name == "sys_platform"@ || name == "sys.platform"@ {
        Some("sys_platform"@)
    } else if name == "platform_version"@ || name == "platform.version"@ {
        Some("platform_version"@)
    } else if name == "platform_machine"@ || name == "platform.machine"@ {
        Some("platform_machine"@)
    } else if name == "platform_python_implementation"@ || name == "platform.python_implementation"@
        || name == "python_implementation"@ {
        Some("platform_python_implementation"@)
    } else if name == "python_version"@ || name == "python_full_version"@ || name
        == "platform_release"@ || name == "platform_system"@ || name == "implementation_name"@ || name
        == "implementation_version"@ || name == "extra"@ || name == "extras"@ || name
        == "dependency_groups"@ {
        Some(name)
    } else {
        None
    }
}

/// What holds of each name: letters, underscores and a dot, which stands at one of three places.
spec fn is_shaped(s: Seq<char>) -> bool {
    &&& s.len() > 3 && s.len() != 8
    &&& forall|i: int|
        0 <= i < s.len() ==> 'a' <= #[trigger] s[i] <= 'z' || s[i] == '_' || (s[i] == '.' && (i == 2
            || i == 3 || i == 8))
}

proof fn lemma_shapes()
    ensures
        forall|k: int|
            0 <= k < tokenizer::variables().len() ==> is_shaped(#[trigger] tokenizer::variables()[k]),
{
    reveal_strlit("python_version");
    reveal_strlit("python_full_version");
    reveal_strlit("os_name");
    reveal_strlit("os.name");
    reveal_strlit("sys_platform");
    reveal_strlit("sys.platform");
    reveal_strlit("platform_release");
    reveal_strlit("platform_system");
    reveal_strlit("platform_version");
    reveal_strlit("platform.version");
    reveal_strlit("platform_machine");
    reveal_strlit("platform.machine");
    reveal_strlit("platform_python_implementation");
    reveal_strlit("platform.python_implementation");
    reveal_strlit("python_implementation");
    reveal_strlit("implementation_name");
    reveal_strlit("implementation_version");
    reveal_strlit("extras");
    reveal_strlit("extra");
    reveal_strlit("dependency_groups");
    assert(is_shaped("python_version"@));
    assert(is_shaped("python_full_version"@));
    assert(is_shaped("os_name"@));
    assert(is_shaped("os.name"@));
    assert(is_shaped("sys_platform"@));
    assert(is_shaped("sys.platform"@));
    assert(is_shaped("platform_release"@));
    assert(is_shaped("platform_system"@));
    assert(is_shaped("platform_version"@));
    assert(is_shaped("platform.version"@));
    assert(is_shaped("platform_machine"@));
    assert(is_shaped("platform.machine"@));
    assert(is_shaped("platform_python_implementation"@));
    assert(is_shaped("platform.python_implementation"@));
    assert(is_shaped("python_implementation"@));
    assert(is_shaped("implementation_name"@));
    assert(is_shaped("implementation_version"@));
    assert(is_shaped("extras"@));
    assert(is_shaped("extra"@));
    assert(is_shaped("dependency_groups"@));
}

/// The names that stand for variables are those of the grammar.
proof fn lemma_names(name: Seq<char>)
    ensures
        tokenizer::variables().contains(name) <==> variable_of(name) is Some,
{
    let w = tokenizer::variables();
    assert(w[0] == "python_version"@ && w[1] == "python_full_version"@ && w[2] == "os_name"@ && w[3]
        == "os.name"@);
    assert(w[4] == "sys_platform"@ && w[5] == "sys.platform"@ && w[6] == "platform_release"@ && w[7]
        == "platform_system"@);
    assert(w[8] == "platform_version"@ && w[9] == "platform.version"@ && w[10]
        == "platform_machine"@ && w[11] == "platform.machine"@);
    assert(w[12] == "platform_python_implementation"@ && w[13] == "platform.python_implementation"@
        && w[14] == "python_implementation"@);
    assert(w[15] == "implementation_name"@ && w[16] == "implementation_version"@ && w[17]
        == "extras"@ && w[18] == "extra"@ && w[19] == "dependency_groups"@);
    if w.contains(name) {
        let k = choose|k: int| 0 <= k < w.len() && w[k] == name;
        assert(0 <= k < 20);
    }
}

proof fn lemma_undotted_same(name: Seq<char>)
    requires
        forall|i: int| 0 <= i < name.len() ==> #[trigger] name[i] != '.',
    ensures
        marker_grammar::undotted(name) == name,
{
    assert(marker_grammar::undotted(name) =~= name);
}

proof fn lemma_variable_of(name: Seq<char>)
    requires
        variable_of(name) is Some,
    ensures
        marker_grammar::variable(name) == variable_of(name).unwrap(),
{
    reveal_strlit("python_version");
    reveal_strlit("python_full_version");
    reveal_strlit("os_name");
    reveal_strlit("os.name");
    reveal_strlit("sys_platform");
    reveal_strlit("sys.platform");
    reveal_strlit("platform_release");
    reveal_strlit("platform_system");
    reveal_strlit("platform_version");
    reveal_strlit("platform.version");
    reveal_strlit("platform_machine");
    reveal_strlit("platform.machine");
    reveal_strlit("platform_python_implementation");
    reveal_strlit("platform.python_implementation");
    reveal_strlit("python_implementation");
    reveal_strlit("implementation_name");
    reveal_strlit("implementation_version");
    reveal_strlit("extras");
    reveal_strlit("extra");
    reveal_strlit("dependency_groups");
    let p = "python_implementation"@;
    assert(p.len() == 21);
    let u = marker_grammar::undotted(name);
    if name == "os.name"@ {
        assert(u =~= "os_name"@);
    } else if name == "sys.platform"@ {
        assert(u =~= "sys_platform"@);
    } else if name == "platform.version"@ {
        assert(u =~= "platform_version"@);
    } else if name == "platform.machine"@ {
        assert(u =~= "platform_machine"@);
    } else if name == "platform.python_implementation"@ {
        assert(u =~= "platform_python_implementation"@);
    } else {
        assert(forall|i: int| 0 <= i < name.len() ==> #[trigger] name[i] != '.');
        lemma_undotted_same(name);
    }
}

/// Whether a text does not go on with a word: it is empty, or begins with a blank, a quote, a
/// character of an operator, or a parenthesis.
pub open spec fn no_word(s: Seq<char>) -> bool {
    s.len() > 0 ==> s[0] == ' ' || s[0] == '\t' || s[0] == '\'' || s[0] == '"' || s[0] == '=' || s[0]
        == '!' || s[0] == '~' || s[0] == '<' || s[0] == '>' || s[0] == '(' || s[0] == ')'
}

proof fn lemma_word(word: Seq<char>, rest: Seq<char>)
    requires
        no_word(rest),
    ensures
        tokenizer::word_at(word + rest, word),
{
    let s = word + rest;
    assert(s.take(word.len() as int) =~= word);
    if word.len() < s.len() {
        assert(s[word.len() as int] == rest[0]);
    }
}

proof fn lemma_variable(name: Seq<char>, rest: Seq<char>)
    requires
        variable_of(name) is Some,
        no_word(rest),
    ensures
        tokenizer::rule_len(Rule::Variable, name + rest) == Some(name.len()),
        name.len() > 0,
        'a' <= name[0] <= 'z' || name[0] == '_',
{
    let words = tokenizer::variables();
    let s = name + rest;
    lemma_names(name);
    lemma_shapes();
    let k = choose|k: int| 0 <= k < words.len() && words[k] == name;
    assert(is_shaped(words[k]));
    lemma_word(name, rest);
    assert forall|j: int|
        0 <= j < words.len() && tokenizer::word_at(s, #[trigger] words[j]) implies words[j].len()
        == name.len() by {
        let w = words[j];
        assert(is_shaped(w));
        let n = w.len() as int;
        assert(s.take(n) == w);
        if n < name.len() {
            assert(s[n] == name[n]);
        } else if n > name.len() {
            assert(s.take(n)[name.len() as int] == rest[0]);
        }
    }
    marker_text::lemma_first_word(s, words, name.len());
}

// --- Operands. ---

/// An operand as it is written: a name, or a text between two quotes of one kind.
pub enum Said {
    Name(Seq<char>),
    Quoted(char, Seq<char>),
}

/// The text of an operand as it is written.
pub open spec fn said(v: Said) -> Seq<char> {
    match v {
        Said::Name(name) => name,
        Said::Quoted(q, body) => seq![q] + body + seq![q],
    }
}

/// What an operand stands for, if it is well written: a variable, or the text with its escapes
/// replaced.
pub open spec fn stands_for(v: Said) -> Option<Operand> {
    match v {
        Said::Name(name) => match variable_of(name) {
            Some(t) => Some(Operand::Variable(t)),
            None => None,
        },
        Said::Quoted(q, body) => if (q == '\'' || q == '"') && !body.contains(q) {
            match marker_grammar::unescape(body) {
                Some(t) => Some(Operand::Value(t)),
                None => None,
            }
        } else {
            None
        },
    }
}

proof fn lemma_quoted(q: char, body: Seq<char>, rest: Seq<char>)
    requires
        q == '\'' || q == '"',
        !body.contains(q),
    ensures
        tokenizer::rule_len(Rule::QuotedString, seq![q] + body + seq![q] + rest) == Some(
            body.len() + 2,
        ),
        marker_grammar::inside(seq![q] + body + seq![q]) == body,
{
    let s = seq![q] + body + seq![q] + rest;
    let k = if q == '\'' {
        Class::NotApostrophe
    } else {
        Class::NotQuote
    };
    let tail = seq![q] + rest;
    assert(text::after(s, 1) =~= body + tail);
    assert forall|i: int| 0 <= i < body.len() implies text::in_class(k, #[trigger] body[i]) by {
        assert(body.contains(body[i]));
    }
    assert(tail[0] == q);
    text::lemma_run_concat(k, body, tail);
    assert(s[0] == q);
    assert(marker_grammar::inside(seq![q] + body + seq![q]) =~= body);
}

proof fn lemma_operand(s: Seq<char>, i: nat, v: Said, rest: Seq<char>)
    requires
        marker_text::at(s, i, said(v) + rest),
        stands_for(v) is Some,
        v is Name ==> no_word(rest),
    ensures
        marker_grammar::read_var(s, i) == Ok::<(Operand, nat), SyntaxError>(
            (stands_for(v).unwrap(), i + said(v).len()),
        ),
        marker_text::at(s, i + said(v).len(), rest),
        said(v).len() > 0,
        no_blank(said(v) + rest),
        said(v)[0] != '(' && said(v)[0] != '=',
{
    reveal(marker_grammar::read_var);
    marker_text::lemma_at(s, i, said(v), rest);
    match v {
        Said::Name(name) => {
            lemma_variable(name, rest);
            lemma_variable_of(name);
        },
        Said::Quoted(q, body) => {
            let t = said(v) + rest;
            assert(t[0] == q);
            marker_text::lemma_no_variable(t);
            lemma_quoted(q, body, rest);
        },
    }
}

// --- Operators. ---

/// An operator as it is written. Blanks stand between `not` and `in`.
pub enum SaidOp {
    In,
    NotIn(Seq<char>),
    Version(Operator),
}

/// The text of an operator as it is written.
pub open spec fn said_op(op: SaidOp) -> Seq<char> {
    match op {
        SaidOp::In => "in"@,
        SaidOp::NotIn(b) => "not"@ + b + "in"@,
        SaidOp::Version(Operator::Compatible) => "~="@,
        SaidOp::Version(Operator::Equal) => "=="@,
        SaidOp::Version(Operator::NotEqual) => "!="@,
        SaidOp::Version(Operator::AtMost) => "<="@,
        SaidOp::Version(Operator::AtLeast) => ">="@,
        SaidOp::Version(Operator::Below) => "<"@,
        SaidOp::Version(Operator::Above) => ">"@,
        SaidOp::Version(Operator::Arbitrary) => "==="@,
    }
}

/// The operator that is written.
pub open spec fn op_of(op: SaidOp) -> MarkerOp {
    match op {
        SaidOp::In => MarkerOp::In,
        SaidOp::NotIn(_) => MarkerOp::NotIn,
        SaidOp::Version(o) => MarkerOp::Version(o),
    }
}

proof fn lemma_one_word(s: Seq<char>, word: Seq<char>)
    ensures
        tokenizer::first_word(s, seq![word]) == if tokenizer::word_at(s, word) {
            Some(word.len())
        } else {
            None
        },
{
    let l = seq![word];
    assert(l[0] == word);
    assert(tokenizer::first_word(s, l.skip(1)) is None);
}

proof fn lemma_other_word(s: Seq<char>, word: Seq<char>)
    requires
        word.len() > 0,
        s.len() > 0 ==> s[0] != word[0],
    ensures
        !tokenizer::word_at(s, word),
{
    if tokenizer::word_at(s, word) {
        assert(s.take(word.len() as int)[0] == s[0]);
    }
}

proof fn lemma_op(s: Seq<char>, i: nat, op: SaidOp, rest: Seq<char>)
    requires
        marker_text::at(s, i, said_op(op) + rest),
        op is Version ==> rest.len() > 0 && rest[0] != '=',
        !(op is Version) ==> no_word(rest),
        op matches SaidOp::NotIn(b) ==> b.len() > 0 && is_blanks(b),
    ensures
        marker_grammar::read_op(s, i) == Ok::<(MarkerOp, nat), SyntaxError>(
            (op_of(op), i + said_op(op).len()),
        ),
        marker_text::at(s, i + said_op(op).len(), rest),
        no_blank(said_op(op) + rest),
        said_op(op).len() > 0,
        op is Version ==> no_word(said_op(op)),
{
    reveal(marker_grammar::read_op);
    reveal_strlit("in");
    reveal_strlit("not");
    clause::lemma_spellings();
    marker_text::lemma_at(s, i, said_op(op), rest);
    let t = said_op(op) + rest;
    lemma_one_word(t, "in"@);
    lemma_one_word(t, "not"@);
    match op {
        SaidOp::In => {
            lemma_word("in"@, rest);
        },
        SaidOp::NotIn(b) => {
            let u = "in"@ + rest;
            assert(t =~= "not"@ + (b + u));
            assert(t[0] == 'n');
            lemma_other_word(t, "in"@);
            assert((b + u)[0] == b[0]);
            lemma_word("not"@, b + u);
            marker_text::lemma_at(s, i, "not"@, b + u);
            assert(text::all_in(Class::Blank, b)) by {
                assert forall|k: int| 0 <= k < b.len() implies text::in_class(
                    Class::Blank,
                    #[trigger] b[k],
                ) by {}
            }
            assert(u[0] == 'i');
            text::lemma_run_concat(Class::Blank, b, u);
            marker_text::lemma_at(s, i + 3, b, u);
            lemma_one_word(u, "in"@);
            lemma_word("in"@, rest);
        },
        SaidOp::Version(o) => {
            assert(said_op(op) == o.spelling());
            lemma_other_word(t, "in"@);
            lemma_other_word(t, "not"@);
            clause::lemma_operator_at(o, rest);
        },
    }
}

// --- Comparisons. ---

/// A comparison as it is written, with the blanks around its parts.
pub struct Written {
    pub before: Seq<char>,
    pub lhs: Said,
    pub left: Seq<char>,
    pub op: SaidOp,
    pub right: Seq<char>,
    pub rhs: Said,
    pub behind: Seq<char>,
}

/// The text of a comparison as it is written.
pub open spec fn written(w: Written) -> Seq<char> {
    w.before + (said(w.lhs) + (w.left + (said_op(w.op) + (w.right + (said(w.rhs) + w.behind)))))
}

/// Whether a comparison is well written: its operands are, only blanks stand between its parts,
/// and words do not touch.
pub open spec fn well_written(w: Written) -> bool {
    &&& is_blanks(w.before) && is_blanks(w.left) && is_blanks(w.right) && is_blanks(w.behind)
    &&& stands_for(w.lhs) is Some
    &&& stands_for(w.rhs) is Some
    &&& w.op matches SaidOp::NotIn(b) ==> b.len() > 0 && is_blanks(b)
    &&& !(w.op is Version) && w.lhs is Name ==> w.left.len() > 0
    &&& !(w.op is Version) && w.rhs is Name ==> w.right.len() > 0
}

/// What a comparison says as it is written.
pub open spec fn item_of(w: Written) -> Tree {
    Tree::Item {
        lhs: stands_for(w.lhs).unwrap(),
        op: op_of(w.op),
        rhs: stands_for(w.rhs).unwrap(),
    }
}

proof fn lemma_no_word_blanks(b: Seq<char>, rest: Seq<char>)
    requires
        is_blanks(b),
        b.len() > 0 || no_word(rest),
    ensures
        no_word(b + rest),
{
    if b.len() > 0 {
        assert((b + rest)[0] == b[0]);
    } else {
        assert(b + rest =~= rest);
    }
}

#[verifier::rlimit(30)]
proof fn lemma_written(s: Seq<char>, i: nat, w: Written, rest: Seq<char>)
    requires
        marker_text::at(s, i, written(w) + rest),
        well_written(w),
        no_blank(rest),
        w.rhs is Name && w.behind.len() == 0 ==> no_word(rest),
    ensures
        marker_grammar::read_item(s, i) == Ok::<(Tree, nat), SyntaxError>(
            (item_of(w), i + written(w).len()),
        ),
        marker_text::at(s, i + written(w).len(), rest),
        marker_grammar::blank(s, i + written(w).len()) == i + written(w).len(),
        marker_grammar::blank(s, i) == i + w.before.len(),
        marker_grammar::read_item(s, i + w.before.len()) == marker_grammar::read_item(s, i),
        i + w.before.len() < s.len(),
        s[(i + w.before.len()) as int] != '(',
{
    reveal(marker_grammar::read_item);
    let r6 = w.behind + rest;
    let r5 = said(w.rhs) + r6;
    let r4 = w.right + r5;
    let r3 = said_op(w.op) + r4;
    let r2 = w.left + r3;
    let r1 = said(w.lhs) + r2;
    assert(written(w) + rest =~= w.before + r1);
    let i1 = i + w.before.len();
    let i2 = i1 + said(w.lhs).len();
    let i3 = i2 + w.left.len();
    let i4 = i3 + said_op(w.op).len();
    let i5 = i4 + w.right.len();
    let i6 = i5 + said(w.rhs).len();
    // What the parts begin with.
    lemma_said_head(w.lhs, r2);
    lemma_said_head(w.rhs, r6);
    lemma_op_head(w.op, r4);
    lemma_blanks(s, i, w.before, r1);
    lemma_no_word_blanks_op(w.left, w.op, r4, w.lhs is Name);
    lemma_operand(s, i1, w.lhs, r2);
    lemma_blanks(s, i2, w.left, r3);
    lemma_op_rest(w.op, w.right, w.rhs, r6);
    lemma_op(s, i3, w.op, r4);
    lemma_blanks(s, i4, w.right, r5);
    if w.rhs is Name {
        lemma_no_word_blanks(w.behind, rest);
    }
    lemma_operand(s, i5, w.rhs, r6);
    lemma_blanks(s, i6, w.behind, rest);
    assert(i6 + w.behind.len() == i + written(w).len());
    assert(s[i1 as int] == text::after(s, i1)[0]);
}

proof fn lemma_said_head(v: Said, rest: Seq<char>)
    requires
        stands_for(v) is Some,
    ensures
        said(v).len() > 0,
        no_blank(said(v) + rest),
        said(v)[0] != '(' && said(v)[0] != '=',
        v is Quoted ==> no_word(said(v) + rest),
{
    match v {
        Said::Name(name) => {
            lemma_variable(name, Seq::empty());
        },
        Said::Quoted(q, body) => {
            assert(said(v)[0] == q);
        },
    }
}

proof fn lemma_op_head(op: SaidOp, rest: Seq<char>)
    ensures
        said_op(op).len() > 0,
        no_blank(said_op(op) + rest),
        op is Version ==> no_word(said_op(op) + rest),
{
    reveal_strlit("in");
    reveal_strlit("not");
    clause::lemma_spellings();
    assert((said_op(op) + rest)[0] == said_op(op)[0]);
}

proof fn lemma_no_word_blanks_op(b: Seq<char>, op: SaidOp, rest: Seq<char>, name: bool)
    requires
        is_blanks(b),
        !(op is Version) && name ==> b.len() > 0,
    ensures
        name ==> no_word(b + (said_op(op) + rest)),
{
    lemma_op_head(op, rest);
    if name {
        lemma_no_word_blanks(b, said_op(op) + rest);
    }
}

proof fn lemma_op_rest(op: SaidOp, b: Seq<char>, v: Said, rest: Seq<char>)
    requires
        is_blanks(b),
        stands_for(v) is Some,
        !(op is Version) && v is Name ==> b.len() > 0,
    ensures
        ({
            let r = b + (said(v) + rest);
            &&& r.len() > 0 && r[0] != '='
            &&& !(op is Version) ==> no_word(r)
        }),
{
    lemma_said_head(v, rest);
    let r = b + (said(v) + rest);
    if b.len() > 0 {
        assert(r[0] == b[0]);
    } else {
        assert(r =~= said(v) + rest);
        assert(r[0] == said(v)[0]);
    }
}

/// A marker of one comparison is read as that comparison, however it is written: with either
/// kind of quotes, with any name of a variable, and with any blanks.
pub proof fn law_comparison(w: Written)
    requires
        well_written(w),
    ensures
        marker_grammar::read_full(written(w)) == Ok::<Seq<Tree>, SyntaxError>(seq![item_of(w)]),
{
    let s = written(w);
    let none = Seq::<char>::empty();
    assert(s + none =~= s);
    assert(text::after(s, 0) =~= s);
    lemma_written(s, 0, w, none);
    lemma_atom(s, 0, w, none);
    assert(text::after(s, s.len()) =~= none);
    lemma_joiners(none);
}

proof fn lemma_atom(s: Seq<char>, i: nat, w: Written, rest: Seq<char>)
    requires
        marker_text::at(s, i, written(w) + rest),
        well_written(w),
        no_blank(rest),
        w.rhs is Name && w.behind.len() == 0 ==> no_word(rest),
    ensures
        marker_grammar::read_atom(s, i) == Ok::<(Tree, nat), SyntaxError>(
            (item_of(w), i + written(w).len()),
        ),
        marker_text::at(s, i + written(w).len(), rest),
{
    lemma_written(s, i, w, rest);
    let j = i + w.before.len();
    assert(text::after(s, j)[0] == s[j as int]);
}

/// What joins markers is one of two words.
proof fn lemma_joiners(s: Seq<char>)
    ensures
        tokenizer::rule_len(Rule::BoolOp, s) == if tokenizer::word_at(s, "or"@) {
            Some("or"@.len())
        } else if tokenizer::word_at(s, "and"@) {
            Some("and"@.len())
        } else {
            None
        },
        s.len() == 0 ==> tokenizer::rule_len(Rule::BoolOp, s) is None,
{
    reveal_strlit("or");
    reveal_strlit("and");
    let l = tokenizer::joiners();
    assert(l[0] == "or"@ && l[1] == "and"@);
    let m = l.skip(1);
    assert(m[0] == "and"@);
    assert(tokenizer::first_word(s, m.skip(1)) is None);
    assert(tokenizer::first_word(s, m) == if tokenizer::word_at(s, "and"@) {
        Some("and"@.len())
    } else {
        None
    });
}

// --- Comparisons with `and` and `or` between them. ---

/// Comparisons as they are written, each but the first behind `and` or `or`.
pub open spec fn flat(l: Seq<Written>, ors: Seq<bool>) -> Seq<char>
    decreases l.len(),
{
    if l.len() <= 1 {
        written(l[0])
    } else {
        written(l[0]) + (joiner_word(ors[0]) + flat(l.skip(1), ors.skip(1)))
    }
}

/// What such comparisons say.
pub open spec fn flat_trees(l: Seq<Written>, ors: Seq<bool>) -> Seq<Tree>
    decreases l.len(),
{
    if l.len() <= 1 {
        seq![item_of(l[0])]
    } else {
        seq![item_of(l[0]), joiner_of(ors[0])] + flat_trees(l.skip(1), ors.skip(1))
    }
}

/// Whether comparisons are well written, and the words between them do not touch names.
pub open spec fn well_flat(l: Seq<Written>, ors: Seq<bool>) -> bool {
    &&& l.len() > 0
    &&& ors.len() == l.len() - 1
    &&& forall|i: int| 0 <= i < l.len() ==> well_written(#[trigger] l[i])
    &&& forall|i: int|
        0 <= i < l.len() - 1 ==> (#[trigger] l[i]).rhs is Quoted || l[i].behind.len() > 0
    &&& forall|i: int|
        0 < i < l.len() ==> (#[trigger] l[i]).lhs is Quoted || l[i].before.len() > 0
}

/// Whether a text can follow comparisons that end there: it does not go on with blanks, with
/// `and` or `or`, or with the name that they end with.
pub open spec fn ends_flat(l: Seq<Written>, rest: Seq<char>) -> bool {
    &&& no_blank(rest)
    &&& rest.len() > 0 ==> rest[0] != 'a' && rest[0] != 'o'
    &&& l.last().rhs is Name && l.last().behind.len() == 0 ==> no_word(rest)
}

proof fn lemma_no_joiner(rest: Seq<char>)
    requires
        rest.len() > 0 ==> rest[0] != 'a' && rest[0] != 'o',
    ensures
        tokenizer::rule_len(Rule::BoolOp, rest) is None,
{
    reveal_strlit("or");
    reveal_strlit("and");
    lemma_joiners(rest);
    lemma_other_word(rest, "or"@);
    lemma_other_word(rest, "and"@);
}

/// What follows the first of some comparisons.
spec fn past_first(l: Seq<Written>, ors: Seq<bool>, rest: Seq<char>) -> Seq<char> {
    if l.len() == 1 {
        rest
    } else {
        joiner_word(ors[0]) + (flat(l.skip(1), ors.skip(1)) + rest)
    }
}

/// The word that joins markers.
pub open spec fn joiner_word(or: bool) -> Seq<char> {
    if or {
        "or"@
    } else {
        "and"@
    }
}

/// The joiner that a word stands for.
pub open spec fn joiner_of(or: bool) -> Tree {
    if or {
        Tree::Or
    } else {
        Tree::And
    }
}

/// A comparison behind `and` or `or`.
#[verifier::rlimit(30)]
proof fn lemma_joined(
    s: Seq<char>,
    i: nat,
    done: Seq<Tree>,
    or: bool,
    w: Written,
    follow: Seq<char>,
)
    requires
        marker_text::at(s, i, joiner_word(or) + (written(w) + follow)),
        well_written(w),
        written(w).len() > 0,
        no_word(written(w)),
        no_blank(follow),
        w.rhs is Name && w.behind.len() == 0 ==> no_word(follow),
    ensures
        ({
            let k = i + joiner_word(or).len() + written(w).len();
            &&& marker_grammar::read_more(s, i, done) == marker_grammar::read_more(
                s,
                k,
                done.push(joiner_of(or)).push(item_of(w)),
            )
            &&& marker_text::at(s, k, follow)
        }),
{
    reveal_strlit("or");
    reveal_strlit("and");
    let word = joiner_word(or);
    let f = written(w) + follow;
    assert(f[0] == written(w)[0]);
    lemma_word(word, f);
    let t = word + f;
    lemma_joiners(t);
    if !or {
        lemma_other_word(t, "or"@);
    }
    marker_text::lemma_at(s, i, word, f);
    assert(text::head(text::after(s, i), word.len()) == word);
    assert("and"@ != "or"@) by {
        assert("and"@.len() != "or"@.len());
    }
    lemma_atom(s, i + word.len(), w, follow);
}

#[verifier::rlimit(60)]
proof fn lemma_flat_more(
    s: Seq<char>,
    i: nat,
    done: Seq<Tree>,
    or: bool,
    l: Seq<Written>,
    ors: Seq<bool>,
    rest: Seq<char>,
)
    requires
        well_flat(l, ors),
        ends_flat(l, rest),
        l[0].lhs is Quoted || l[0].before.len() > 0,
        marker_text::at(s, i, joiner_word(or) + (flat(l, ors) + rest)),
    ensures
        ({
            let end = i + joiner_word(or).len() + flat(l, ors).len();
            &&& marker_grammar::read_more(s, i, done) == Ok::<(Seq<Tree>, nat), SyntaxError>(
                (done.push(joiner_of(or)) + flat_trees(l, ors), end),
            )
            &&& marker_text::at(s, end, rest)
        }),
    decreases l.len(),
{
    let follow = past_first(l, ors, rest);
    let joiner = joiner_of(or);
    assert(flat(l, ors) + rest =~= written(l[0]) + follow);
    assert(well_written(l[0]));
    lemma_flat_rest(l, ors, rest);
    lemma_written_head(l[0]);
    lemma_joined(s, i, done, or, l[0], follow);
    let k = i + joiner_word(or).len() + written(l[0]).len();
    let next = done.push(joiner).push(item_of(l[0]));
    if l.len() == 1 {
        lemma_no_joiner(rest);
        assert(done.push(joiner) + seq![item_of(l[0])] =~= next);
    } else {
        let (m, os) = (l.skip(1), ors.skip(1));
        lemma_well_flat(l, ors);
        assert(m.last() == l.last());
        lemma_flat_more(s, k, next, ors[0], m, os, rest);
        lemma_trees_add(done.push(joiner), l, ors);
    }
}

proof fn lemma_trees_add(done: Seq<Tree>, l: Seq<Written>, ors: Seq<bool>)
    requires
        l.len() > 1,
    ensures
        done.push(item_of(l[0])).push(joiner_of(ors[0])) + flat_trees(l.skip(1), ors.skip(1))
            == done + flat_trees(l, ors),
{
    let f = flat_trees(l.skip(1), ors.skip(1));
    assert(done.push(item_of(l[0])).push(joiner_of(ors[0])) + f =~= done + (seq![
        item_of(l[0]),
        joiner_of(ors[0]),
    ] + f));
}

proof fn lemma_written_head(w: Written)
    requires
        well_written(w),
        w.lhs is Quoted || w.before.len() > 0,
    ensures
        no_word(written(w)),
        written(w).len() > 0,
{
    let r = w.left + (said_op(w.op) + (w.right + (said(w.rhs) + w.behind)));
    lemma_said_head(w.lhs, r);
    lemma_no_word_blanks(w.before, said(w.lhs) + r);
}

proof fn lemma_flat_rest(l: Seq<Written>, ors: Seq<bool>, rest: Seq<char>)
    requires
        well_flat(l, ors),
        ends_flat(l, rest),
    ensures
        no_blank(past_first(l, ors, rest)),
        l[0].rhs is Name && l[0].behind.len() == 0 ==> no_word(past_first(l, ors, rest)),
{
    reveal_strlit("or");
    reveal_strlit("and");
    assert(l.len() > 1 ==> l[0].rhs is Quoted || l[0].behind.len() > 0);
}

proof fn lemma_well_flat(l: Seq<Written>, ors: Seq<bool>)
    requires
        well_flat(l, ors),
        l.len() > 1,
    ensures
        well_flat(l.skip(1), ors.skip(1)),
        l.skip(1)[0].lhs is Quoted || l.skip(1)[0].before.len() > 0,
{
    let m = l.skip(1);
    assert(m[0] == l[1]);
    assert forall|i: int| 0 <= i < m.len() implies well_written(#[trigger] m[i]) by {
        assert(m[i] == l[i + 1]);
    }
    assert forall|i: int| 0 <= i < m.len() - 1 implies (#[trigger] m[i]).rhs is Quoted
        || m[i].behind.len() > 0 by {
        assert(m[i] == l[i + 1]);
    }
    assert forall|i: int| 0 < i < m.len() implies (#[trigger] m[i]).lhs is Quoted
        || m[i].before.len() > 0 by {
        assert(m[i] == l[i + 1]);
    }
}

/// Comparisons are read up to what follows them.
#[verifier::rlimit(60)]
pub proof fn lemma_flat_at(
    s: Seq<char>,
    i: nat,
    l: Seq<Written>,
    ors: Seq<bool>,
    rest: Seq<char>,
)
    requires
        well_flat(l, ors),
        ends_flat(l, rest),
        marker_text::at(s, i, flat(l, ors) + rest),
    ensures
        marker_grammar::read_marker(s, i) == Ok::<(Seq<Tree>, nat), SyntaxError>(
            (flat_trees(l, ors), i + flat(l, ors).len()),
        ),
        marker_text::at(s, i + flat(l, ors).len(), rest),
{
    let follow = past_first(l, ors, rest);
    assert(flat(l, ors) + rest =~= written(l[0]) + follow);
    lemma_flat_rest(l, ors, rest);
    lemma_atom(s, i, l[0], follow);
    let k = i + written(l[0]).len();
    let first = seq![item_of(l[0])];
    if l.len() == 1 {
        lemma_no_joiner(rest);
    } else {
        lemma_well_flat(l, ors);
        assert(l.skip(1).last() == l.last());
        lemma_flat_more(s, k, first, ors[0], l.skip(1), ors.skip(1), rest);
        assert(first.push(joiner_of(ors[0])) + flat_trees(l.skip(1), ors.skip(1)) =~= flat_trees(l, ors));
    }
}

/// Comparisons with `and` and `or` between them are read in their order, however they are
/// written. With anything else behind them a text is no marker.
pub proof fn law_comparisons(l: Seq<Written>, ors: Seq<bool>, rest: Seq<char>)
    requires
        well_flat(l, ors),
    ensures
        marker_grammar::read_full(flat(l, ors)) == Ok::<Seq<Tree>, SyntaxError>(
            flat_trees(l, ors),
        ),
        rest.len() > 0 && ends_flat(l, rest) ==> marker_grammar::read_full(flat(l, ors) + rest) is Err,
{
    let s = flat(l, ors);
    let none = Seq::<char>::empty();
    assert(s + none =~= s);
    assert(text::after(s, 0) =~= s);
    lemma_flat_at(s, 0, l, ors, none);
    assert(text::after(s, s.len()) =~= none);
    if rest.len() > 0 && ends_flat(l, rest) {
        let t = s + rest;
        assert(text::after(t, 0) =~= t);
        lemma_flat_at(t, 0, l, ors, rest);
        assert(text::after(t, s.len()) =~= rest);
    }
}

/// Comparisons in parentheses are read as a marker within a marker.
#[verifier::rlimit(60)]
pub proof fn law_parentheses(
    before: Seq<char>,
    l: Seq<Written>,
    ors: Seq<bool>,
    behind: Seq<char>,
)
    requires
        is_blanks(before),
        is_blanks(behind),
        well_flat(l, ors),
        l[0].before.len() == 0,
    ensures
        marker_grammar::read_full(
            before + (seq!['('] + (flat(l, ors) + (seq![')'] + behind))),
        ) == Ok::<Seq<Tree>, SyntaxError>(seq![Tree::List(flat_trees(l, ors))]),
{
    let none = Seq::<char>::empty();
    let close = seq![')'] + behind;
    let inner = flat(l, ors) + close;
    let open = seq!['('] + inner;
    let s = before + open;
    assert(close[0] == ')');
    assert(open[0] == '(');
    assert(text::after(s, 0) =~= s);
    lemma_blanks(s, 0, before, open);
    let j = before.len();
    marker_text::lemma_at(s, j, seq!['('], inner);
    lemma_flat_start(l, ors, close);
    assert(none + inner =~= inner);
    lemma_blanks(s, j + 1, none, inner);
    lemma_flat_at(s, j + 1, l, ors, close);
    let k = j + 1 + flat(l, ors).len();
    assert(none + close =~= close);
    lemma_blanks(s, k, none, close);
    marker_text::lemma_at(s, k, seq![')'], behind);
    assert(behind + none =~= behind);
    lemma_blanks(s, k + 1, behind, none);
    assert(k + 1 + behind.len() == s.len());
    assert(text::after(s, s.len()) =~= none);
    lemma_no_joiner(none);
}

proof fn lemma_flat_start(l: Seq<Written>, ors: Seq<bool>, rest: Seq<char>)
    requires
        l.len() > 0,
        well_written(l[0]),
        l[0].before.len() == 0,
    ensures
        no_blank(flat(l, ors) + rest),
        flat(l, ors).len() > 0,
{
    let w = l[0];
    let r = w.left + (said_op(w.op) + (w.right + (said(w.rhs) + w.behind)));
    lemma_said_head(w.lhs, r);
    assert(written(w) =~= said(w.lhs) + r);
    assert(flat(l, ors)[0] == written(w)[0]);
    assert((flat(l, ors) + rest)[0] == flat(l, ors)[0]);
}

} // verus!
