//! The tokens of markers and requirements. A parser asks for one kind of token at a time.

use vstd::prelude::*;

use crate::chars;
use crate::clause;
use crate::grammar;
use crate::outside;
use crate::scan;
use crate::text::{self, Class};

verus! {

/// The kinds of tokens.
#[derive(Debug, Clone, Copy, PartialEq, Eq, Structural)]
pub enum Rule {
    LeftParenthesis,
    RightParenthesis,
    LeftBracket,
    RightBracket,
    Semicolon,
    Comma,
    /// A text between quotes of one kind that holds none of that kind.
    QuotedString,
    /// An operator of version specifiers.
    Op,
    /// `or` or `and`.
    BoolOp,
    /// `in`.
    In,
    /// `not`.
    Not,
    /// The name of an environment variable.
    Variable,
    /// A version specifier.
    Specifier,
    At,
    /// Anything up to a space or a tab.
    Url,
    /// The name of a project or of an extra.
    Identifier,
    /// `.*`.
    VersionPrefixTrail,
    /// `+` and a local label in lower case.
    VersionLocalLabelTrail,
    /// Spaces and tabs.
    Ws,
    /// The end of the source.
    End,
}

impl Rule {
    /// The name of the kind, as messages give it.
    pub open spec fn spelling(self) -> Seq<char> {
        match self {
            Rule::LeftParenthesis => "LEFT_PARENTHESIS"@,
            Rule::RightParenthesis => "RIGHT_PARENTHESIS"@,
            Rule::LeftBracket => "LEFT_BRACKET"@,
            Rule::RightBracket => "RIGHT_BRACKET"@,
            Rule::Semicolon => "SEMICOLON"@,
            Rule::Comma => "COMMA"@,
            Rule::QuotedString => "QUOTED_STRING"@,
            Rule::Op => "OP"@,
            Rule::BoolOp => "BOOLOP"@,
            Rule::In => "IN"@,
            Rule::Not => "NOT"@,
            Rule::Variable => "VARIABLE"@,
            Rule::Specifier => "SPECIFIER"@,
            Rule::At => "AT"@,
            Rule::Url => "URL"@,
            Rule::Identifier => "IDENTIFIER"@,
            Rule::VersionPrefixTrail => "VERSION_PREFIX_TRAIL"@,
            Rule::VersionLocalLabelTrail => "VERSION_LOCAL_LABEL_TRAIL"@,
            Rule::Ws => "WS"@,
            Rule::End => "END"@,
        }
    }

    /// The name of the kind, as messages give it.
    pub fn as_str(self) -> (r: &'static str)
        ensures
            r@ == self.spelling(),
    {
        match self {
            Rule::LeftParenthesis => "LEFT_PARENTHESIS",
            Rule::RightParenthesis => "RIGHT_PARENTHESIS",
            Rule::LeftBracket => "LEFT_BRACKET",
            Rule::RightBracket => "RIGHT_BRACKET",
            Rule::Semicolon => "SEMICOLON",
            Rule::Comma => "COMMA",
            Rule::QuotedString => "QUOTED_STRING",
            Rule::Op => "OP",
            Rule::BoolOp => "BOOLOP",
            Rule::In => "IN",
            Rule::Not => "NOT",
            Rule::Variable => "VARIABLE",
            Rule::Specifier => "SPECIFIER",
            Rule::At => "AT",
            Rule::Url => "URL",
            Rule::Identifier => "IDENTIFIER",
            Rule::VersionPrefixTrail => "VERSION_PREFIX_TRAIL",
            Rule::VersionLocalLabelTrail => "VERSION_LOCAL_LABEL_TRAIL",
            Rule::Ws => "WS",
            Rule::End => "END",
        }
    }
}

// --- The tokens at the head of a text. ---

/// A single character.
pub open spec fn mark_len(s: Seq<char>, c: char) -> Option<nat> {
    if s.len() > 0 && s[0] == c {
        Some(1)
    } else {
        None
    }
}

/// A text between quotes of one kind.
pub open spec fn quoted_len(s: Seq<char>) -> Option<nat> {
    if s.len() == 0 || (s[0] != '\'' && s[0] != '"') {
        None
    } else {
        let k = if s[0] == '\'' {
            Class::NotApostrophe
        } else {
            Class::NotQuote
        };
        let n = text::run(k, text::after(s, 1));
        if n + 1 < s.len() {
            Some(n + 2)
        } else {
            None
        }
    }
}

/// Whether a text begins with a word and does not go on with it.
pub open spec fn word_at(s: Seq<char>, word: Seq<char>) -> bool {
    text::starts_with(s, word) && !(word.len() < s.len() && outside::is_word(s[word.len() as int]))
}

/// The first of some words that a text begins with.
pub open spec fn first_word(s: Seq<char>, words: Seq<Seq<char>>) -> Option<nat>
    decreases words.len(),
{
    if words.len() == 0 {
        None
    } else if word_at(s, words[0]) {
        Some(words[0].len())
    } else {
        first_word(s, words.skip(1))
    }
}

/// The words that join markers.
pub open spec fn joiners() -> Seq<Seq<char>> {
    seq!["or"@, "and"@]
}

/// The names of environment variables, with those that dots may be used in.
pub open spec fn variables() -> Seq<Seq<char>> {
    seq![
        "python_version"@,
        "python_full_version"@,
        "os_name"@,
        "os.name"@,
        "sys_platform"@,
        "sys.platform"@,
        "platform_release"@,
        "platform_system"@,
        "platform_version"@,
        "platform.version"@,
        "platform_machine"@,
        "platform.machine"@,
        "platform_python_implementation"@,
        "platform.python_implementation"@,
        "python_implementation"@,
        "implementation_name"@,
        "implementation_version"@,
        "extras"@,
        "extra"@,
        "dependency_groups"@,
    ]
}

/// Whether a name may end at a place: a word character on one side of it only.
pub open spec fn is_boundary(s: Seq<char>, n: nat) -> bool {
    outside::is_word(s[n - 1]) != (n < s.len() && outside::is_word(s[n as int]))
}

/// The last place, up to the `n`-th, where a name may end.
pub open spec fn last_boundary(s: Seq<char>, n: nat) -> Option<nat>
    decreases n,
{
    if n == 0 {
        None
    } else if is_boundary(s, n) {
        Some(n)
    } else {
        last_boundary(s, (n - 1) as nat)
    }
}

/// The name of a project or of an extra: it begins with a letter or a digit, goes on with
/// those, dots, underscores and dashes, and is as long as it can be.
pub open spec fn identifier_len(s: Seq<char>) -> Option<nat> {
    if s.len() > 0 && text::in_class(Class::Name, s[0]) && !text::is_separator(s[0]) {
        last_boundary(s, text::run(Class::Name, s))
    } else {
        None
    }
}

/// A run that is not empty.
pub open spec fn run_len(k: Class, s: Seq<char>) -> Option<nat> {
    if text::run(k, s) > 0 {
        Some(text::run(k, s))
    } else {
        None
    }
}

/// How much of the head of a text is a token of a kind. Nothing where there is no such token.
pub open spec fn rule_len(rule: Rule, s: Seq<char>) -> Option<nat> {
    match rule {
        Rule::LeftParenthesis => mark_len(s, '('),
        Rule::RightParenthesis => mark_len(s, ')'),
        Rule::LeftBracket => mark_len(s, '['),
        Rule::RightBracket => mark_len(s, ']'),
        Rule::Semicolon => mark_len(s, ';'),
        Rule::Comma => mark_len(s, ','),
        Rule::QuotedString => quoted_len(s),
        Rule::Op => match clause::operator_at(s) {
            Some(op) => Some(op.spelling().len()),
            None => None,
        },
        Rule::BoolOp => first_word(s, joiners()),
        Rule::In => first_word(s, seq!["in"@]),
        Rule::Not => first_word(s, seq!["not"@]),
        Rule::Variable => first_word(s, variables()),
        Rule::Specifier => clause::clause_len(s),
        Rule::At => mark_len(s, '@'),
        Rule::Url => run_len(Class::Solid, s),
        Rule::Identifier => identifier_len(s),
        Rule::VersionPrefixTrail => if text::starts_with(s, clause::star()) {
            Some(2)
        } else {
            None
        },
        Rule::VersionLocalLabelTrail => if s.len() > 0 && s[0] == '+' && grammar::list_len(
            Class::LowerLabel,
            grammar::separators(),
            text::after(s, 1),
        ) > 0 {
            Some(
                1 + grammar::list_len(
                    Class::LowerLabel,
                    grammar::separators(),
                    text::after(s, 1),
                ),
            )
        } else {
            None
        },
        Rule::Ws => run_len(Class::Blank, s),
        Rule::End => if s.len() == 0 {
            Some(0)
        } else {
            None
        },
    }
}

// --- Executable forms. ---

/// What a reader took, as a number.
pub open spec fn as_nat(n: Option<usize>) -> Option<nat> {
    match n {
        Some(k) => Some(k as nat),
        None => None,
    }
}

/// Whether a length is within a text.
pub open spec fn within(n: Option<usize>, s: Seq<char>) -> bool {
    n matches Some(k) ==> k <= s.len()
}

fn scan_mark(s: &[char], c: char) -> (r: Option<usize>)
    ensures
        as_nat(r) == mark_len(s@, c),
        within(r, s@),
{
    if s.len() > 0 && s[0] == c {
        Some(1)
    } else {
        None
    }
}

fn scan_quoted(s: &[char]) -> (r: Option<usize>)
    ensures
        as_nat(r) == quoted_len(s@),
        within(r, s@),
{
    if s.len() == 0 || (s[0] != '\'' && s[0] != '"') {
        return None;
    }
    let k = if s[0] == '\'' {
        Class::NotApostrophe
    } else {
        Class::NotQuote
    };
    let n: usize = chars::run(&k, chars::skip(s, 1));
    assert(s.len() == s@.len());
    if n < s.len() - 1 {
        Some(n + 2)
    } else {
        None
    }
}

fn check_word(s: &[char], word: &str) -> (r: bool)
    ensures
        r == word_at(s@, word@),
{
    let w = chars::chars_of(word);
    chars::begins(s, &w) && !(w.len() < s.len() && outside::is_word_char(s[w.len()]))
}

/// Texts as sequences of characters.
pub open spec fn word_views(words: Seq<&str>) -> Seq<Seq<char>> {
    words.map_values(|w: &str| w@)
}

fn scan_words(s: &[char], words: &[&str]) -> (r: Option<usize>)
    ensures
        as_nat(r) == first_word(s@, word_views(words@)),
        within(r, s@),
{
    let ghost all = word_views(words@);
    let mut i: usize = 0;
    assert(all.skip(0) =~= all);
    while i < words.len()
        invariant
            i <= words@.len(),
            all == word_views(words@),
            first_word(s@, all) == first_word(s@, all.skip(i as int)),
        decreases words@.len() - i,
    {
        assert(all.skip(i as int)[0] == words@[i as int]@);
        if check_word(s, words[i]) {
            return Some(chars::chars_of(words[i]).len());
        }
        assert(all.skip(i as int).skip(1) =~= all.skip(i + 1));
        i += 1;
    }
    None
}

fn scan_variable(s: &[char]) -> (r: Option<usize>)
    ensures
        as_nat(r) == first_word(s@, variables()),
        within(r, s@),
{
    let words = [
        "python_version",
        "python_full_version",
        "os_name",
        "os.name",
        "sys_platform",
        "sys.platform",
        "platform_release",
        "platform_system",
        "platform_version",
        "platform.version",
        "platform_machine",
        "platform.machine",
        "platform_python_implementation",
        "platform.python_implementation",
        "python_implementation",
        "implementation_name",
        "implementation_version",
        "extras",
        "extra",
        "dependency_groups",
    ];
    assert(word_views(words@) =~= variables());
    scan_words(s, &words)
}

fn check_boundary(s: &[char], n: usize) -> (r: bool)
    requires
        0 < n <= s@.len(),
    ensures
        r == is_boundary(s@, n as nat),
{
    outside::is_word_char(s[n - 1]) != (n < s.len() && outside::is_word_char(s[n]))
}

fn scan_identifier(s: &[char]) -> (r: Option<usize>)
    ensures
        as_nat(r) == identifier_len(s@),
        within(r, s@),
{
    if s.len() == 0 || !chars::in_class(&Class::Name, s[0]) || chars::is_separator(s[0]) {
        return None;
    }
    let mut n: usize = chars::run(&Class::Name, s);
    while n > 0
        invariant
            n <= s@.len(),
            identifier_len(s@) == last_boundary(s@, n as nat),
        decreases n,
    {
        if check_boundary(s, n) {
            return Some(n);
        }
        n -= 1;
    }
    None
}

fn scan_run(k: Class, s: &[char]) -> (r: Option<usize>)
    ensures
        as_nat(r) == run_len(k, s@),
        within(r, s@),
{
    let n: usize = chars::run(&k, s);
    if n > 0 {
        Some(n)
    } else {
        None
    }
}

fn scan_local_trail(s: &[char]) -> (r: Option<usize>)
    ensures
        as_nat(r) == rule_len(Rule::VersionLocalLabelTrail, s@),
        within(r, s@),
{
    if s.len() == 0 || s[0] != '+' {
        return None;
    }
    let marks = ['.', '_', '-'];
    assert(marks@ =~= grammar::separators());
    let n: usize = scan::list_len(&Class::LowerLabel, &marks, chars::skip(s, 1));
    if n > 0 {
        Some(1 + n)
    } else {
        None
    }
}

/// How much of the head of a text is a token of a kind.
pub fn scan_rule(rule: Rule, s: &[char]) -> (r: Option<usize>)
    ensures
        as_nat(r) == rule_len(rule, s@),
        within(r, s@),
{
    match rule {
        Rule::LeftParenthesis => scan_mark(s, '('),
        Rule::RightParenthesis => scan_mark(s, ')'),
        Rule::LeftBracket => scan_mark(s, '['),
        Rule::RightBracket => scan_mark(s, ']'),
        Rule::Semicolon => scan_mark(s, ';'),
        Rule::Comma => scan_mark(s, ','),
        Rule::QuotedString => scan_quoted(s),
        Rule::Op => match clause::read_operator(s) {
            Some(op) => Some(clause::operator_len(op)),
            None => None,
        },
        Rule::BoolOp => {
            let words = ["or", "and"];
            assert(word_views(words@) =~= joiners());
            scan_words(s, &words)
        },
        Rule::In => {
            let words = ["in"];
            assert(word_views(words@) =~= seq!["in"@]);
            scan_words(s, &words)
        },
        Rule::Not => {
            let words = ["not"];
            assert(word_views(words@) =~= seq!["not"@]);
            scan_words(s, &words)
        },
        Rule::Variable => scan_variable(s),
        Rule::Specifier => clause::scan_clause(s),
        Rule::At => scan_mark(s, '@'),
        Rule::Url => scan_run(Class::Solid, s),
        Rule::Identifier => scan_identifier(s),
        Rule::VersionPrefixTrail => {
            proof {
                reveal_strlit(".*");
            }
            if chars::starts_with(s, ".*") {
                Some(2)
            } else {
                None
            }
        },
        Rule::VersionLocalLabelTrail => scan_local_trail(s),
        Rule::Ws => scan_run(Class::Blank, s),
        Rule::End => if s.len() == 0 {
            Some(0)
        } else {
            None
        },
    }
}

// --- Errors. ---

/// What is wrong with a source, and which bytes of it are.
#[verifier::ext_equal]
pub struct SyntaxError {
    /// What is wrong.
    pub message: Seq<char>,
    /// The byte at which it begins.
    pub start: nat,
    /// The byte at which it was found.
    pub end: nat,
}

/// An error of a parser, with the source that it is about.
#[derive(Debug)]
pub struct ParserSyntaxError {
    /// What is wrong.
    pub message: String,
    /// The source.
    pub source: String,
    /// The bytes of the source that it is about.
    pub span: (usize, usize),
}

impl Clone for ParserSyntaxError {
    fn clone(&self) -> (r: ParserSyntaxError)
        ensures
            r.error() == self.error(),
            r.source@ == self.source@,
    {
        ParserSyntaxError {
            message: chars::copy(&self.message),
            source: chars::copy(&self.source),
            span: (self.span.0, self.span.1),
        }
    }
}

impl ParserSyntaxError {
    /// The error without its source.
    pub open spec fn error(self) -> SyntaxError {
        SyntaxError {
            message: self.message@,
            start: self.span.0 as nat,
            end: self.span.1 as nat,
        }
    }
}

/// A row of one character.
pub open spec fn row(c: char, n: nat) -> Seq<char> {
    Seq::new(n, |i: int| c)
}

/// An error as it is shown: the message, the source, and below it a mark at the place.
pub open spec fn error_text(e: SyntaxError, source: Seq<char>) -> Seq<char> {
    e.message + "\n    "@ + source + "\n    "@ + row(' ', e.start) + row(
        '~',
        if e.end > e.start {
            (e.end - e.start) as nat
        } else {
            0
        },
    ) + "^"@
}

fn push_row(out: &mut String, c: char, n: usize)
    ensures
        final(out)@ == old(out)@ + row(c, n as nat),
{
    let mut i: usize = 0;
    assert(out@ =~= old(out)@ + row(c, 0));
    while i < n
        invariant
            i <= n,
            out@ == old(out)@ + row(c, i as nat),
        decreases n - i,
    {
        out.push(c);
        i += 1;
        assert(out@ =~= old(out)@ + row(c, i as nat));
    }
}

impl ParserSyntaxError {
    /// The error as it is shown.
    pub fn to_string(&self) -> (r: String)
        ensures
            r@ == error_text(self.error(), self.source@),
    {
        let (start, end) = self.span;
        let mut out = chars::copy(&self.message);
        out.push_str("\n    ");
        out.push_str(&self.source);
        out.push_str("\n    ");
        push_row(&mut out, ' ', start);
        let width: usize = if end > start {
            end - start
        } else {
            0
        };
        push_row(&mut out, '~', width);
        out.push_str("^");
        out
    }
}

// --- The tokenizer. ---

/// A token: its kind, its text and the byte of the source at which it begins.
#[derive(Debug)]
pub struct Token {
    pub name: Rule,
    pub text: String,
    pub position: usize,
}

impl Clone for Token {
    fn clone(&self) -> (r: Token)
        ensures
            r@ == self@,
    {
        Token { name: self.name, text: chars::copy(&self.text), position: self.position }
    }
}

/// What a token says.
#[verifier::ext_equal]
pub struct TokenSpec {
    pub name: Rule,
    pub text: Seq<char>,
    pub position: nat,
}

impl View for Token {
    type V = TokenSpec;

    open spec fn view(&self) -> TokenSpec {
        TokenSpec { name: self.name, text: self.text@, position: self.position as nat }
    }
}

/// A tokenizer: a source, how far it was read, and a token that was found and not read yet.
#[derive(Debug)]
pub struct Tokenizer {
    /// The source.
    source: String,
    /// How many bytes of the source were read.
    position: usize,
    /// The characters of the source.
    chars: Vec<char>,
    /// How many characters were read.
    index: usize,
    /// The token that was found last, if it was not read yet.
    next_token: Option<Token>,
}

/// The state of a tokenizer.
#[verifier::ext_equal]
pub struct TokenizerSpec {
    /// The source.
    pub source: Seq<char>,
    /// How many characters were read.
    pub index: nat,
    /// The token that was found last, if it was not read yet.
    pub next: Option<TokenSpec>,
}

impl View for Tokenizer {
    type V = TokenizerSpec;

    closed spec fn view(&self) -> TokenizerSpec {
        TokenizerSpec {
            source: self.source@,
            index: self.index as nat,
            next: match self.next_token {
                Some(t) => Some(t@),
                None => None,
            },
        }
    }
}

/// The token of a kind at a place of a source.
pub open spec fn token_at(source: Seq<char>, index: nat, rule: Rule, n: nat) -> TokenSpec {
    TokenSpec {
        name: rule,
        text: text::head(text::after(source, index), n),
        position: text::byte_at(source, index),
    }
}

impl TokenizerSpec {
    /// What was not read yet.
    pub open spec fn rest(self) -> Seq<char> {
        text::after(self.source, self.index)
    }

    /// How much of what was not read yet is a token of a kind.
    pub open spec fn rule_len(self, rule: Rule) -> Option<nat> {
        rule_len(rule, self.rest())
    }

    /// An error at the place that was reached.
    pub open spec fn error(self, message: Seq<char>) -> SyntaxError {
        SyntaxError {
            message,
            start: text::byte_at(self.source, self.index),
            end: text::byte_at(self.source, self.index),
        }
    }

    /// The state after `n` characters more.
    pub open spec fn advance(self, n: nat) -> TokenizerSpec {
        TokenizerSpec { index: self.index + n, next: None, ..self }
    }
}

impl Tokenizer {
    /// What holds of a tokenizer: the number of bytes read is that of the characters read, and
    /// a token that was found stands at the place that was reached.
    pub closed spec fn wf(self) -> bool {
        &&& self.chars@ == self.source@
        &&& self.index <= self.chars@.len()
        &&& self.position == text::byte_at(self.source@, self.index as nat)
        &&& text::byte_len(self.source@) <= usize::MAX
        &&& self.next_token matches Some(t) ==> {
            &&& t.text@.len() <= self.chars@.len() - self.index
            &&& t@ == token_at(self.source@, self.index as nat, t.name, t.text@.len())
        }
    }

    /// How many bytes of the source were read.
    pub fn position(&self) -> (r: usize)
        requires
            self.wf(),
        ensures
            r == text::byte_at(self@.source, self@.index),
            self@.index <= self@.source.len(),
    {
        self.position
    }

    /// Characters that are left take bytes that a number of the machine can count.
    pub proof fn lemma_room(&self, n: nat)
        requires
            self.wf(),
            self@.index + n <= self@.source.len(),
        ensures
            text::byte_at(self@.source, self@.index) + n <= usize::MAX,
    {
        let s = self@.source;
        text::lemma_byte_at(s, self@.index, n);
        text::lemma_byte_len_chars(text::head(text::after(s, self@.index), n));
    }

    /// A tokenizer at the beginning of a source.
    pub fn new(source: &str) -> (r: Tokenizer)
        ensures
            r.wf(),
            r@ == (TokenizerSpec { source: source@, index: 0, next: None }),
    {
        let bytes = source.as_bytes();
        assert(bytes.len() == text::byte_len(source@));
        assert(text::head(source@, 0) =~= Seq::<char>::empty());
        Tokenizer {
            source: chars::copy(source),
            position: 0,
            chars: chars::chars_of(source),
            index: 0,
            next_token: None,
        }
    }

    /// How much of what was not read yet is a token of a kind.
    fn match_len(&self, rule: Rule) -> (r: Option<usize>)
        requires
            self.wf(),
        ensures
            as_nat(r) == self@.rule_len(rule),
            within(r, self@.rest()),
    {
        scan_rule(rule, chars::skip(&self.chars, self.index))
    }

    /// Whether a token of a kind is next. If it is, [`Tokenizer::read`] reads it.
    pub fn check(&mut self, rule: Rule) -> (r: bool)
        requires
            old(self).wf(),
        ensures
            final(self).wf(),
            r == (old(self)@.rule_len(rule) is Some),
            match old(self)@.rule_len(rule) {
                Some(n) => {
                    &&& n <= old(self)@.rest().len()
                    &&& final(self)@ == (TokenizerSpec {
                        next: Some(token_at(old(self)@.source, old(self)@.index, rule, n)),
                        ..old(self)@
                    })
                },
                None => final(self)@ == old(self)@,
            },
    {
        match self.match_len(rule) {
            Some(n) => {
                let text = chars::string_of(chars::take(chars::skip(&self.chars, self.index), n));
                assert(text@ == text::head(self@.rest(), n as nat));
                self.next_token = Some(Token { name: rule, text, position: self.position });
                true
            },
            None => false,
        }
    }

    /// Whether a token of a kind is next.
    pub fn peek(&self, rule: Rule) -> (r: bool)
        requires
            self.wf(),
        ensures
            r == (self@.rule_len(rule) is Some),
    {
        self.match_len(rule).is_some()
    }

    /// Reads the token that was found last.
    pub fn read(&mut self) -> (r: Token)
        requires
            old(self).wf(),
            old(self)@.next is Some,
        ensures
            final(self).wf(),
            Some(r@) == old(self)@.next,
            final(self)@ == old(self)@.advance(r.text@.len()),
            final(self)@.index <= final(self)@.source.len(),
            r.position + text::byte_len(r.text@) == text::byte_at(
                final(self)@.source,
                final(self)@.index,
            ),
            r.position == text::byte_at(old(self)@.source, old(self)@.index),
    {
        let next = self.next_token.take();
        match next {
            Some(token) => {
                let text = chars::chars_of(&token.text);
                proof {
                    text::lemma_byte_at(self.source@, self.index as nat, text@.len());
                    assert(text::head(text::after(self.source@, self.index as nat), text@.len())
                        == text@);
                }
                let n: usize = chars::count_bytes(&text);
                assert(self.chars.len() == self.chars@.len());
                self.index = self.index + text.len();
                self.position = self.position + n;
                token
            },
            None => {
                assert(false);
                Token { name: Rule::End, text: String::new(), position: 0 }
            },
        }
    }

    /// Reads the next token if it is of a kind.
    pub fn consume(&mut self, rule: Rule)
        requires
            old(self).wf(),
        ensures
            final(self).wf(),
            final(self)@ == match old(self)@.rule_len(rule) {
                Some(n) => old(self)@.advance(n),
                None => old(self)@,
            },
    {
        if self.check(rule) {
            self.read();
        }
    }

    /// Reads the next token if it is of a kind, and fails if it is not.
    pub fn expect(&mut self, rule: Rule, expected: &str) -> (r: Result<Token, ParserSyntaxError>)
        requires
            old(self).wf(),
        ensures
            final(self).wf(),
            match r {
                Ok(t) => {
                    &&& old(self)@.rule_len(rule) == Some(t.text@.len())
                    &&& t@ == token_at(old(self)@.source, old(self)@.index, rule, t.text@.len())
                    &&& final(self)@ == old(self)@.advance(t.text@.len())
                    &&& final(self)@.index <= final(self)@.source.len()
                },
                Err(e) => {
                    &&& old(self)@.rule_len(rule) is None
                    &&& final(self)@ == old(self)@
                    &&& e.source@ == old(self)@.source
                    &&& e.error() == old(self)@.error("Expected "@ + expected@)
                },
            },
    {
        if !self.check(rule) {
            let mut message = chars::copy("Expected ");
            message.push_str(expected);
            return Err(self.syntax_error(&message, None, None));
        }
        Ok(self.read())
    }

    /// An error about some bytes of the source; where none are given, about the place that was
    /// reached.
    pub fn syntax_error(
        &self,
        message: &str,
        span_start: Option<usize>,
        span_end: Option<usize>,
    ) -> (r: ParserSyntaxError)
        requires
            self.wf(),
        ensures
            r.source@ == self@.source,
            r.error() == (SyntaxError {
                message: message@,
                start: match span_start {
                    Some(n) => n as nat,
                    None => text::byte_at(self@.source, self@.index),
                },
                end: match span_end {
                    Some(n) => n as nat,
                    None => text::byte_at(self@.source, self@.index),
                },
            }),
    {
        let start: usize = match span_start {
            Some(n) => n,
            None => self.position,
        };
        let end: usize = match span_end {
            Some(n) => n,
            None => self.position,
        };
        ParserSyntaxError {
            message: chars::copy(message),
            source: chars::copy(&self.source),
            span: (start, end),
        }
    }
}

/// A word between markers is not empty.
pub proof fn lemma_joiner(s: Seq<char>)
    ensures
        first_word(s, joiners()) matches Some(n) ==> 0 < n <= s.len(),
{
    reveal_strlit("or");
    reveal_strlit("and");
    reveal_with_fuel(first_word, 3);
}

/// Whether a parser left the tokenizer at a place, with nothing found and not read.
pub open spec fn reached(before: Tokenizer, after: Tokenizer, index: nat) -> bool {
    &&& after.wf()
    &&& after@.source == before@.source
    &&& after@.next is None
    &&& after@.index == index
    &&& before@.index <= index <= before@.source.len()
}

} // verus!
