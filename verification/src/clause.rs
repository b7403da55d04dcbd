//! The grammar of version specifiers: an operator and a version, which may be a pattern.

use vstd::prelude::*;

use crate::chars;
use crate::grammar;
use crate::scan;
use crate::text::{self, Class};

verus! {

/// The operator of a version specifier.
#[derive(Debug, Clone, Copy, PartialEq, Eq, Structural)]
pub enum Operator {
    /// `===`: the same text.
    Arbitrary,
    /// `==`: the same version, or a version that a pattern matches.
    Equal,
    /// `!=`: not what `==` admits.
    NotEqual,
    /// `~=`: a compatible release.
    Compatible,
    /// `<=`.
    AtMost,
    /// `>=`.
    AtLeast,
    /// `<`.
    Below,
    /// `>`.
    Above,
}

impl Operator {
    /// How the operator is written.
    pub open spec fn spelling(self) -> Seq<char> {
        match self {
            Operator::Arbitrary => "==="@,
            Operator::Equal => "=="@,
            Operator::NotEqual => "!="@,
            Operator::Compatible => "~="@,
            Operator::AtMost => "<="@,
            Operator::AtLeast => ">="@,
            Operator::Below => "<"@,
            Operator::Above => ">"@,
        }
    }

    /// How the operator is written.
    pub fn as_str(self) -> (r: &'static str)
        ensures
            r@ == self.spelling(),
    {
        match self {
            Operator::Arbitrary => "===",
            Operator::Equal => "==",
            Operator::NotEqual => "!=",
            Operator::Compatible => "~=",
            Operator::AtMost => "<=",
            Operator::AtLeast => ">=",
            Operator::Below => "<",
            Operator::Above => ">",
        }
    }
}

/// The operator at the head of a text. Of operators that begin alike it is the longest.
pub open spec fn operator_at(s: Seq<char>) -> Option<Operator> {
    if text::starts_with(s, "==="@) {
        Some(Operator::Arbitrary)
    } else if text::starts_with(s, "=="@) {
        Some(Operator::Equal)
    } else if text::starts_with(s, "!="@) {
        Some(Operator::NotEqual)
    } else if text::starts_with(s, "~="@) {
        Some(Operator::Compatible)
    } else if text::starts_with(s, "<="@) {
        Some(Operator::AtMost)
    } else if text::starts_with(s, ">="@) {
        Some(Operator::AtLeast)
    } else if text::starts_with(s, "<"@) {
        Some(Operator::Below)
    } else if text::starts_with(s, ">"@) {
        Some(Operator::Above)
    } else {
        None
    }
}

/// Whether versions with a local label and patterns may follow the operator.
pub open spec fn takes_patterns(op: Operator) -> bool {
    op == Operator::Equal || op == Operator::NotEqual
}

/// The end of a pattern.
pub open spec fn star() -> Seq<char> {
    ".*"@
}

/// What follows the epoch.
pub open spec fn past_epoch(s: Seq<char>) -> Seq<char> {
    let s1 = text::after(s, grammar::v_len(s));
    text::after(s1, grammar::epoch_len(s1))
}

/// What follows the release.
pub open spec fn past_release(s: Seq<char>) -> Seq<char> {
    text::after(past_epoch(s), grammar::release_len(past_epoch(s)))
}

/// What follows the segments for pre-releases, post-releases and development releases.
pub open spec fn past_stages(s: Seq<char>) -> Seq<char> {
    let s3 = past_release(s);
    let s4 = text::after(s3, grammar::pre_len(s3));
    let s5 = text::after(s4, grammar::post_len(s4));
    text::after(s5, grammar::dev_len(s5))
}

/// How much of the head of a text, after the operator and white space, belongs to the version.
/// Nothing where there is no version. A compatible release needs two numbers.
pub open spec fn version_len(op: Operator, s: Seq<char>) -> Option<nat> {
    let s2 = past_epoch(s);
    if op == Operator::Arbitrary {
        Some(text::run(Class::Plain, s))
    } else if grammar::release_len(s2) == 0 {
        None
    } else if op == Operator::Compatible && grammar::release_len(s2) == text::run(
        Class::Digit,
        s2,
    ) {
        None
    } else {
        let rest = if takes_patterns(op) && text::starts_with(past_release(s), star()) {
            past_release(s).skip(2)
        } else if takes_patterns(op) {
            text::after(past_stages(s), grammar::local_len(past_stages(s)))
        } else {
            past_stages(s)
        };
        Some((s.len() - rest.len()) as nat)
    }
}

/// What follows the operator and the white space after it.
pub open spec fn past_operator(s: Seq<char>, op: Operator) -> Seq<char> {
    let t = text::after(s, op.spelling().len());
    text::after(t, text::run(Class::Space, t))
}

/// How much of the head of a text is a version specifier. Nothing where there is none.
pub open spec fn clause_len(s: Seq<char>) -> Option<nat> {
    match operator_at(s) {
        Some(op) => match version_len(op, past_operator(s, op)) {
            Some(n) => Some((s.len() - past_operator(s, op).len() + n) as nat),
            None => None,
        },
        None => None,
    }
}

/// The operator and the version of a text that is a version specifier as a whole, but for
/// white space around it.
pub open spec fn read_clause(s: Seq<char>) -> Option<(Operator, Seq<char>)> {
    let t = text::trim(s);
    if clause_len(t) == Some(t.len()) {
        let op = operator_at(t).unwrap();
        Some((op, text::trim(text::after(t, op.spelling().len()))))
    } else {
        None
    }
}

// --- Executable readers. ---

/// The operator at the head of a text.
pub fn read_operator(s: &[char]) -> (r: Option<Operator>)
    ensures
        r == operator_at(s@),
        r matches Some(op) ==> op.spelling().len() <= s@.len(),
{
    if chars::starts_with(s, "===") {
        Some(Operator::Arbitrary)
    } else if chars::starts_with(s, "==") {
        Some(Operator::Equal)
    } else if chars::starts_with(s, "!=") {
        Some(Operator::NotEqual)
    } else if chars::starts_with(s, "~=") {
        Some(Operator::Compatible)
    } else if chars::starts_with(s, "<=") {
        Some(Operator::AtMost)
    } else if chars::starts_with(s, ">=") {
        Some(Operator::AtLeast)
    } else if chars::starts_with(s, "<") {
        Some(Operator::Below)
    } else if chars::starts_with(s, ">") {
        Some(Operator::Above)
    } else {
        None
    }
}

/// The length of an operator.
pub fn operator_len(op: Operator) -> (r: usize)
    ensures
        r == op.spelling().len(),
{
    proof {
        reveal_strlit("===");
        reveal_strlit("==");
        reveal_strlit("!=");
        reveal_strlit("~=");
        reveal_strlit("<=");
        reveal_strlit(">=");
        reveal_strlit("<");
        reveal_strlit(">");
    }
    match op {
        Operator::Arbitrary => 3,
        Operator::Below | Operator::Above => 1,
        _ => 2,
    }
}

/// How much of the head of a text belongs to the version.
fn scan_version(op: Operator, s: &[char]) -> (r: Option<usize>)
    ensures
        match r {
            Some(n) => version_len(op, s@) == Some(n as nat) && n <= s@.len(),
            None => version_len(op, s@) is None,
        },
{
    if op == Operator::Arbitrary {
        return Some(chars::run(&Class::Plain, s));
    }
    let s1 = chars::skip(s, scan::v_len(s));
    let s2 = chars::skip(s1, scan::epoch_len(s1));
    let n: usize = scan::release_len(s2);
    if n == 0 {
        return None;
    }
    if op == Operator::Compatible && n == chars::run(&Class::Digit, s2) {
        return None;
    }
    let s3 = chars::skip(s2, n);
    let patterns = op == Operator::Equal || op == Operator::NotEqual;
    proof {
        reveal_strlit(".*");
    }
    let rest = if patterns && chars::starts_with(s3, ".*") {
        chars::skip(s3, 2)
    } else {
        let s4 = chars::skip(s3, scan::pre_len(s3));
        let s5 = chars::skip(s4, scan::post_len(s4));
        let s6 = chars::skip(s5, scan::dev_len(s5));
        if patterns {
            chars::skip(s6, scan::local_len(s6))
        } else {
            s6
        }
    };
    Some(s.len() - rest.len())
}

/// How much of the head of a text is a version specifier.
pub fn scan_clause(s: &[char]) -> (r: Option<usize>)
    ensures
        match r {
            Some(n) => clause_len(s@) == Some(n as nat) && 0 < n <= s@.len(),
            None => clause_len(s@) is None,
        },
{
    let op = match read_operator(s) {
        Some(op) => op,
        None => return None,
    };
    let t = chars::skip(s, operator_len(op));
    let rest = chars::skip(t, chars::run(&Class::Space, t));
    match scan_version(op, rest) {
        Some(n) => {
            proof {
                reveal_strlit("===");
                reveal_strlit("==");
                reveal_strlit("!=");
                reveal_strlit("~=");
                reveal_strlit("<=");
                reveal_strlit(">=");
                reveal_strlit("<");
                reveal_strlit(">");
            }
            assert(s.len() == s@.len());
            Some(s.len() - rest.len() + n)
        },
        None => None,
    }
}

/// The operator and the version of a text that is a version specifier as a whole.
pub fn split_clause<'a>(s: &'a [char]) -> (r: Option<(Operator, &'a [char])>)
    ensures
        match r {
            Some((op, v)) => read_clause(s@) == Some((op, v@)),
            None => read_clause(s@) is None,
        },
{
    let t = chars::trim(s);
    match scan_clause(t) {
        Some(n) => if n == t.len() {
            match read_operator(t) {
                Some(op) => Some((op, chars::trim(chars::skip(t, operator_len(op))))),
                None => None,
            }
        } else {
            None
        },
        None => None,
    }
}

// --- Laws. ---

/// The operators, character by character.
pub proof fn lemma_spellings()
    ensures
        "==="@ == seq!['=', '=', '='],
        "=="@ == seq!['=', '='],
        "!="@ == seq!['!', '='],
        "~="@ == seq!['~', '='],
        "<="@ == seq!['<', '='],
        ">="@ == seq!['>', '='],
        "<"@ == seq!['<'],
        ">"@ == seq!['>'],
{
    reveal_strlit("===");
    reveal_strlit("==");
    reveal_strlit("!=");
    reveal_strlit("~=");
    reveal_strlit("<=");
    reveal_strlit(">=");
    reveal_strlit("<");
    reveal_strlit(">");
    assert("==="@ =~= seq!['=', '=', '=']);
    assert("=="@ =~= seq!['=', '=']);
    assert("!="@ =~= seq!['!', '=']);
    assert("~="@ =~= seq!['~', '=']);
    assert("<="@ =~= seq!['<', '=']);
    assert(">="@ =~= seq!['>', '=']);
    assert("<"@ =~= seq!['<']);
    assert(">"@ =~= seq!['>']);
}

/// An operator is read back where what follows it does not go on with it.
pub proof fn lemma_operator_at(op: Operator, t: Seq<char>)
    requires
        op != Operator::Arbitrary ==> t.len() > 0 && t[0] != '=',
    ensures
        operator_at(op.spelling() + t) == Some(op),
        op.spelling().len() > 0,
        !text::is_space(op.spelling()[0]),
        !text::is_space(op.spelling().last()),
{
    lemma_spellings();
    let s = op.spelling() + t;
    assert(s.take(op.spelling().len() as int) =~= op.spelling());
    assert(text::starts_with(s, op.spelling()));
    let three = seq!['=', '=', '='];
    let two = seq!['=', '='];
    if op != Operator::Arbitrary {
        if text::starts_with(s, three) {
            assert(s.take(3)[0] == '=');
            assert(s.take(3)[1] == '=');
            assert(s.take(3)[2] == '=');
        }
        if op != Operator::Equal && text::starts_with(s, two) {
            assert(s.take(2)[0] == '=');
        }
        if op != Operator::NotEqual && text::starts_with(s, seq!['!', '=']) {
            assert(s.take(2)[0] == '!');
        }
        if op != Operator::Compatible && text::starts_with(s, seq!['~', '=']) {
            assert(s.take(2)[0] == '~');
        }
        if op != Operator::AtMost && text::starts_with(s, seq!['<', '=']) {
            assert(s.take(2)[0] == '<');
            assert(s.take(2)[1] == '=');
        }
        if op != Operator::AtLeast && text::starts_with(s, seq!['>', '=']) {
            assert(s.take(2)[0] == '>');
            assert(s.take(2)[1] == '=');
        }
        if op != Operator::Below && op != Operator::AtMost && text::starts_with(s, seq!['<']) {
            assert(s.take(1)[0] == '<');
        }
    }
}

/// A version that follows an operator begins with a letter or a digit.
proof fn lemma_version_start(op: Operator, t: Seq<char>)
    requires
        op != Operator::Arbitrary,
        version_len(op, t) is Some,
    ensures
        t.len() > 0,
        t[0] != '=',
{
    if grammar::v_len(t) == 0 {
        assert(text::after(t, 0) =~= t);
        if grammar::epoch_len(t) == 0 {
            assert(past_epoch(t) =~= t);
        }
    }
}

/// The parts of a version specifier, without white space between them.
proof fn lemma_clause_parts(s: Seq<char>)
    requires
        read_clause(s) is Some,
    ensures
        ({
            let (op, t) = read_clause(s).unwrap();
            &&& version_len(op, t) == Some(t.len())
            &&& t.len() > 0 ==> !text::is_space(t[0]) && !text::is_space(t.last())
        }),
{
    let u = text::trim(s);
    let op = operator_at(u).unwrap();
    let a = text::after(u, op.spelling().len());
    let r = past_operator(u, op);
    text::lemma_trim_ends(s);
    text::lemma_run_all(Class::Space, a);
    assert(text::starts_with(u, op.spelling()));
    if r.len() > 0 {
        assert(r.last() == u.last());
    }
    assert(text::trim(a) == r);
}

/// Writing a specifier: its operator and its version, one after the other, say the same
/// specifier again.
pub proof fn law_clause_text(s: Seq<char>)
    requires
        read_clause(s) is Some,
    ensures
        ({
            let (op, t) = read_clause(s).unwrap();
            read_clause(op.spelling() + t) == Some((op, t))
        }),
{
    let (op, t) = read_clause(s).unwrap();
    lemma_clause_parts(s);
    if op != Operator::Arbitrary {
        lemma_version_start(op, t);
    }
    lemma_operator_at(op, t);
    let w = op.spelling() + t;
    assert(w[0] == op.spelling()[0]);
    if t.len() > 0 {
        assert(w.last() == t.last());
    } else {
        assert(w.last() == op.spelling().last());
    }
    text::lemma_trim_none(w);
    assert(text::after(w, op.spelling().len()) =~= t);
    assert(text::run(Class::Space, t) == 0);
    assert(text::after(t, 0) =~= t);
    text::lemma_trim_none(t);
}

/// Whether what follows an operator is a pattern.
pub open spec fn is_pattern(op: Operator, t: Seq<char>) -> bool {
    takes_patterns(op) && text::ends_with(t, star())
}

/// The release, what is before it and the segments after it are made of version characters.
pub proof fn lemma_stage_chars(t: Seq<char>)
    ensures
        grammar::version_chars(t, (t.len() - past_release(t).len()) as nat),
        past_release(t).len() <= t.len(),
        past_release(t) == text::after(t, (t.len() - past_release(t).len()) as nat),
        grammar::version_chars(t, (t.len() - past_stages(t).len()) as nat),
        past_stages(t).len() <= t.len(),
        past_stages(t) == text::after(t, (t.len() - past_stages(t).len()) as nat),
{
    let n1 = grammar::v_len(t);
    let s1 = text::after(t, n1);
    let n2 = grammar::epoch_len(s1);
    let s2 = text::after(s1, n2);
    let n3 = grammar::release_len(s2);
    let s3 = text::after(s2, n3);
    let n4 = grammar::pre_len(s3);
    let s4 = text::after(s3, n4);
    let n5 = grammar::post_len(s4);
    let s5 = text::after(s4, n5);
    let n6 = grammar::dev_len(s5);
    grammar::lemma_base_chars(t);
    grammar::lemma_base_chars(s1);
    grammar::lemma_chars_add(t, n1, n2);
    grammar::lemma_base_chars(s2);
    grammar::lemma_chars_add(t, n1 + n2, n3);
    grammar::lemma_pre_chars(s3);
    grammar::lemma_chars_add(t, n1 + n2 + n3, n4);
    grammar::lemma_post_chars(s4);
    grammar::lemma_chars_add(t, n1 + n2 + n3 + n4, n5);
    grammar::lemma_dev_chars(s5);
    grammar::lemma_chars_add(t, n1 + n2 + n3 + n4 + n5, n6);
}

proof fn lemma_no_star(op: Operator, t: Seq<char>)
    requires
        op != Operator::Arbitrary,
        version_len(op, t) == Some(t.len()),
        !(takes_patterns(op) && text::starts_with(past_release(t), star())),
    ensures
        grammar::read_version(t) is Some,
        grammar::version_chars(t, t.len()),
        !text::ends_with(t, star()),
{
    let s6 = past_stages(t);
    lemma_stage_chars(t);
    if takes_patterns(op) {
        grammar::lemma_local_chars(s6);
        grammar::lemma_chars_add(t, (t.len() - s6.len()) as nat, grammar::local_len(s6));
    }
    reveal_strlit(".*");
    if text::ends_with(t, star()) {
        assert(t.skip(t.len() - 2)[1] == '*');
        assert(grammar::is_version_char(t[t.len() - 1]));
    }
}

proof fn lemma_pattern(t: Seq<char>)
    requires
        grammar::release_len(past_epoch(t)) > 0,
        text::starts_with(past_release(t), star()),
        past_release(t).len() == 2,
    ensures
        text::ends_with(t, star()),
        grammar::read_version(t.take(t.len() - 2)) matches Some(v) && v.pre is None && v.post is None
            && v.dev is None && v.local is None,
{
    reveal_strlit(".*");
    lemma_stage_chars(t);
    let b = t.take(t.len() - 2);
    assert(t.skip(t.len() - 2) =~= past_release(t));
    assert(past_release(t).take(2) =~= past_release(t));
    let s1 = text::after(t, grammar::v_len(t));
    let s2 = past_epoch(t);
    let n = grammar::release_len(s2);
    grammar::lemma_list_head(Class::Digit, grammar::dot(), s2);
    text::lemma_run_all(Class::Digit, s1);
    text::lemma_run_all(Class::Digit, s2);
    assert(grammar::v_len(b) == grammar::v_len(t));
    let b1 = text::after(b, grammar::v_len(b));
    assert(b1 =~= text::head(s1, (s1.len() - 2) as nat));
    grammar::lemma_base_chars(s1);
    if grammar::epoch_len(s1) == 0 {
        assert(text::after(s1, 0) =~= s1);
    }
    text::lemma_run_head(Class::Digit, s1, b1.len());
    assert(grammar::epoch_len(b1) == grammar::epoch_len(s1));
    let b2 = text::after(b1, grammar::epoch_len(b1));
    assert(b2 =~= text::head(s2, n));
    let b3 = text::after(b2, n);
    assert(b3.len() == 0);
    reveal_strlit("alpha");
    reveal_strlit("a");
    reveal_strlit("beta");
    reveal_strlit("b");
    reveal_strlit("preview");
    reveal_strlit("pre");
    reveal_strlit("c");
    reveal_strlit("rc");
    reveal_strlit("post");
    reveal_strlit("rev");
    reveal_strlit("r");
    reveal_strlit("dev");
    assert(grammar::past_separator(b3) =~= b3);
    assert(text::after(b3, 0) =~= b3);
}

/// What follows an operator other than `===` is a version, or a pattern made of an epoch, a
/// release and `.*`.
pub proof fn law_clause_version(s: Seq<char>)
    requires
        read_clause(s) is Some,
    ensures
        ({
            let (op, t) = read_clause(s).unwrap();
            op != Operator::Arbitrary ==> if is_pattern(op, t) {
                grammar::read_version(t.take(t.len() - 2)) matches Some(v) && v.pre is None
                    && v.post is None && v.dev is None && v.local is None
            } else {
                grammar::read_version(t) is Some && !text::ends_with(t, star())
            }
        }),
{
    let (op, t) = read_clause(s).unwrap();
    lemma_clause_parts(s);
    reveal_strlit(".*");
    if op != Operator::Arbitrary {
        if takes_patterns(op) && text::starts_with(past_release(t), star()) {
            lemma_stage_chars(t);
            lemma_pattern(t);
        } else {
            lemma_no_star(op, t);
        }
    }
}

/// The version of a specifier is a part of its text.
pub proof fn lemma_clause_within(s: Seq<char>, c: char)
    requires
        read_clause(s) matches Some((_, t)) && t.contains(c),
    ensures
        s.contains(c),
{
    let u = text::trim(s);
    let op = operator_at(u).unwrap();
    let a = text::after(u, op.spelling().len());
    text::lemma_trim_within(a, c);
    assert(text::starts_with(u, op.spelling()));
    let i = choose|i: int| 0 <= i < a.len() && a[i] == c;
    assert(u[i + op.spelling().len()] == c);
    text::lemma_trim_within(s, c);
}

/// An operator holds none but its own characters.
pub proof fn lemma_spelling_chars(op: Operator, c: char)
    requires
        op.spelling().contains(c),
    ensures
        c == '=' || c == '!' || c == '~' || c == '<' || c == '>',
{
    lemma_spellings();
    let i = choose|i: int| 0 <= i < op.spelling().len() && op.spelling()[i] == c;
}

/// A version is made of version characters.
pub proof fn lemma_version_chars(t: Seq<char>)
    requires
        grammar::read_version(t) is Some,
    ensures
        grammar::version_chars(t, t.len()),
{
    let s6 = past_stages(t);
    lemma_stage_chars(t);
    grammar::lemma_local_chars(s6);
    grammar::lemma_chars_add(t, (t.len() - s6.len()) as nat, grammar::local_len(s6));
}

/// White space around a specifier does not matter, and a specifier is not empty.
pub proof fn lemma_clause_trim(s: Seq<char>)
    requires
        read_clause(s) is Some,
    ensures
        text::trim(s).len() > 0,
        read_clause(text::trim(s)) == read_clause(s),
{
    text::lemma_trim_ends(s);
    lemma_spellings();
    let u = text::trim(s);
    assert(text::starts_with(u, operator_at(u).unwrap().spelling()));
}

/// The operator at the head of a text is that of the operator alone.
pub proof fn lemma_operator_head(s: Seq<char>)
    ensures
        operator_at(s) matches Some(op) ==> operator_at(text::head(s, op.spelling().len())) == Some(
            op,
        ),
{
    lemma_spellings();
    if let Some(op) = operator_at(s) {
        let h = text::head(s, op.spelling().len());
        assert(h =~= op.spelling());
        assert(text::starts_with(s, op.spelling()));
        assert(h.take(h.len() as int) =~= h);
        assert(text::starts_with(h, op.spelling()));
        if h.len() >= 2 {
            assert(h.take(2)[0] == h[0]);
            assert(h.take(2)[1] == h[1]);
        }
        assert(h.take(1)[0] == h[0]);
    }
}

/// What stands in a specifier after its operator: no white space, no semicolon and no closing
/// parenthesis; and it is read as its version.
pub proof fn lemma_clause_chars(s: Seq<char>)
    requires
        read_clause(s) is Some,
    ensures
        ({
            let (op, t) = read_clause(s).unwrap();
            &&& text::all_in(Class::Plain, t)
            &&& version_len(op, t) == Some(t.len())
            &&& op != Operator::Arbitrary ==> t.len() > 0 && t[0] != '='
        }),
{
    let (op, t) = read_clause(s).unwrap();
    lemma_clause_parts(s);
    text::lemma_run_all(Class::Plain, t);
    if op == Operator::Arbitrary {
        assert(text::head(t, t.len()) =~= t);
    } else {
        lemma_version_start(op, t);
        lemma_stage_chars(t);
        reveal_strlit(".*");
        let n = if takes_patterns(op) && text::starts_with(past_release(t), star()) {
            (t.len() - 2) as nat
        } else {
            lemma_no_star(op, t);
            t.len()
        };
        assert forall|i: int| 0 <= i < t.len() implies text::in_class(
            Class::Plain,
            #[trigger] t[i],
        ) by {
            if i < n {
                assert(grammar::is_version_char(t[i]));
            } else {
                let r = past_release(t);
                assert(r.take(2)[i - n] == star()[i - n]);
                assert(t[i] == r[i - n]);
            }
        }
    }
}

} // verus!
