//! The grammars, held against regular expressions that say the same.

use pyreq::tokenizer::{scan_rule, Rule};
use pyreq::{is_normalized_name, Specifier, Version, VersionParts};
use regex::Regex;

const VERSION: &str = r"(?xi)
    \A\s*
    v?
    (?:(?P<epoch>[0-9]+)!)?
    (?P<release>[0-9]+(?:\.[0-9]+)*)
    (?:[._-]?(?P<pre_l>alpha|a|beta|b|preview|pre|c|rc)[._-]?(?P<pre_n>[0-9]+)?)?
    (?:(?:-(?P<post_n1>[0-9]+))|(?:[._-]?(?P<post_l>post|rev|r)[._-]?(?P<post_n2>[0-9]+)?))?
    (?:[._-]?(?P<dev_l>dev)[._-]?(?P<dev_n>[0-9]+)?)?
    (?:\+(?P<local>[a-z0-9]+(?:[._-][a-z0-9]+)*))?
    \s*\z
";

const STAGES: [&str; 3] = [
    r"(?:[-_.]?(?:alpha|beta|preview|pre|a|b|c|rc)[-_.]?[0-9]*)?",
    r"(?:(?:-[0-9]+)|(?:[-_.]?(?:post|rev|r)[-_.]?[0-9]*))?",
    r"(?:[-_.]?dev[-_.]?[0-9]*)?",
];

fn clause() -> String {
    let mut s = String::from(r"(?:(?:===\s*[^\s;)]*)|(?:(?:==|!=)\s*v?(?:[0-9]+!)?[0-9]+(?:\.[0-9]+)*");
    s.push_str(r"(?:\.\*|(?:");
    s.push_str(&STAGES.join(""));
    s.push_str(r"(?:\+[a-z0-9]+(?:[-_.][a-z0-9]+)*)?))?)|(?:~=\s*v?(?:[0-9]+!)?[0-9]+(?:\.[0-9]+)+");
    s.push_str(&STAGES.join(""));
    s.push_str(r")|(?:(?:<=|>=|<|>)\s*v?(?:[0-9]+!)?[0-9]+(?:\.[0-9]+)*");
    s.push_str(&STAGES.join(""));
    s.push_str("))");
    s
}

/// A generator of numbers that is the same in every run.
struct Numbers(u64);

impl Numbers {
    fn below(&mut self, n: usize) -> usize {
        self.0 = self.0.wrapping_mul(6364136223846793005).wrapping_add(1442695040888963407);
        ((self.0 >> 33) as usize) % n
    }

    fn text(&mut self, pieces: &[&str], most: usize) -> String {
        let n = self.below(most + 1);
        let mut s = String::new();
        for _ in 0..n {
            s.push_str(pieces[self.below(pieces.len())]);
        }
        s
    }
}

const VERSION_PIECES: &[&str] = &[
    "0", "1", "12", ".", ".", "!", "-", "_", "+", "a", "b", "c", "rc", "alpha", "BETA", "pre",
    "preview", "post", "rev", "r", "R", "dev", "Dev", "v", "V", " ", "\t", "x", "*", "\u{17f}",
    "\u{212a}", "\u{a0}", "po\u{17f}t",
];

/// Texts that begin like a version, so that more of them are one.
const STARTS: &[&str] = &["", "1", "1.0", "v1.2", "2!1.0", " 1.0", "1.0a", "1.0.post", "1.0-1"];

#[test]
fn versions_are_those_of_the_pattern() {
    let re = Regex::new(VERSION).unwrap();
    let mut numbers = Numbers(1);
    let mut accepted = 0;
    for _ in 0..6000 {
        let mut s = STARTS[numbers.below(STARTS.len())].to_string();
        s.push_str(&numbers.text(VERSION_PIECES, 6));
        let parsed = Version::parse(&s);
        match re.captures(&s) {
            None => assert!(parsed.is_err(), "{:?} is no version", s),
            Some(c) => {
                accepted += 1;
                let v = match parsed {
                    Ok(v) => v,
                    Err(_) => panic!("{:?} is a version", s),
                };
                let number = |name: &str| c.name(name).map(|m| m.as_str().parse::<u64>().unwrap());
                assert_eq!(v.epoch(), number("epoch").unwrap_or(0), "{:?}", s);
                let release: Vec<u64> =
                    c["release"].split('.').map(|p| p.parse().unwrap()).collect();
                assert_eq!(v.release(), release, "{:?}", s);
                assert_eq!(
                    v.pre().map(|p| p.1),
                    c.name("pre_l").map(|_| number("pre_n").unwrap_or(0)),
                    "{:?}",
                    s
                );
                let post = if c.name("post_l").is_some() {
                    Some(number("post_n2").unwrap_or(0))
                } else {
                    number("post_n1")
                };
                assert_eq!(v.post(), post, "{:?}", s);
                assert_eq!(
                    v.dev(),
                    c.name("dev_l").map(|_| number("dev_n").unwrap_or(0)),
                    "{:?}",
                    s
                );
                assert_eq!(
                    v.local().is_some(),
                    c.name("local").is_some(),
                    "{:?}",
                    s
                );
            }
        }
    }
    assert!(accepted > 500, "only {} versions", accepted);
}

const CLAUSE_STARTS: &[&str] = &[
    "==", "!=", "~=", "<=", ">=", "<", ">", "===", "==1.0", "!=1.0.*", "~=1.0", "~=1", ">=1!2.0",
    "== 1.0", " >=1.0 ", "=", "===1.0", "==1.0+a",
];

#[test]
fn specifiers_are_those_of_the_pattern() {
    let mut pattern = String::from(r"(?i)\A\s*");
    pattern.push_str(&clause());
    pattern.push_str(r"\s*\z");
    let re = Regex::new(&pattern).unwrap();
    let mut numbers = Numbers(2);
    let mut accepted = 0;
    for _ in 0..6000 {
        let mut s = CLAUSE_STARTS[numbers.below(CLAUSE_STARTS.len())].to_string();
        s.push_str(&numbers.text(VERSION_PIECES, 5));
        s.push_str(["", "", " ", ".*", ";", ")", ","][numbers.below(7)]);
        let parsed = Specifier::parse(&s).is_ok();
        assert_eq!(parsed, re.is_match(&s), "{:?}", s);
        if parsed {
            accepted += 1;
        }
    }
    assert!(accepted > 500, "only {} specifiers", accepted);
}

const TOKEN_PIECES: &[&str] = &[
    "(", ")", "[", "]", ";", ",", "'", "\"", "=", "==", "~=", "!=", "<", "<=", ">", "or", "and",
    "in", "not", " ", "\t", "\n", "@", "a", "B", "0", "1.0", ".", "-", "_", ".*", "+a.1", "+A",
    "python_version", "python_full_version", "os.name", "os_name", "sys.platform", "platform",
    ".machine", "_python_implementation", "extra", "s", "dependency_groups", "\u{e9}", "\u{3b1}",
    "\u{2014}", "http://x",
];

#[test]
fn tokens_are_those_of_the_patterns() {
    let specifier = format!("(?i)\\A{}", clause());
    let variable = [
        r"\A\b(?:python_version|python_full_version|os[._]name|sys[._]platform",
        r"|platform_(?:release|system)",
        r"|platform[._](?:version|machine|python_implementation)",
        r"|python_implementation|implementation_(?:name|version)",
        r"|extras?|dependency_groups)\b",
    ]
    .join("");
    let rules: Vec<(Rule, &str)> = vec![
        (Rule::LeftParenthesis, r"\A\("),
        (Rule::RightParenthesis, r"\A\)"),
        (Rule::LeftBracket, r"\A\["),
        (Rule::RightBracket, r"\A\]"),
        (Rule::Semicolon, r"\A;"),
        (Rule::Comma, r"\A,"),
        (Rule::QuotedString, "\\A(?:'[^']*'|\"[^\"]*\")"),
        (Rule::Op, r"\A(?:===|==|~=|!=|<=|>=|<|>)"),
        (Rule::BoolOp, r"\A\b(?:or|and)\b"),
        (Rule::In, r"\A\bin\b"),
        (Rule::Not, r"\A\bnot\b"),
        (
            Rule::Variable,
            &variable,
        ),
        (Rule::Specifier, &specifier),
        (Rule::At, r"\A@"),
        (Rule::Url, r"\A[^ \t]+"),
        (Rule::Identifier, r"\A\b[a-zA-Z0-9][a-zA-Z0-9._-]*\b"),
        (Rule::VersionPrefixTrail, r"\A\.\*"),
        (Rule::VersionLocalLabelTrail, r"\A\+[a-z0-9]+(?:[-_.][a-z0-9]+)*"),
        (Rule::Ws, r"\A[ \t]+"),
        (Rule::End, r"\A\z"),
    ];
    let compiled: Vec<(Rule, Regex)> =
        rules.iter().map(|(r, p)| (*r, Regex::new(p).unwrap())).collect();
    let mut numbers = Numbers(3);
    for _ in 0..1500 {
        let s = numbers.text(TOKEN_PIECES, 5);
        let chars: Vec<char> = s.chars().collect();
        for (rule, re) in &compiled {
            let expected = re.find(&s).map(|m| m.as_str().chars().count());
            assert_eq!(scan_rule(*rule, &chars), expected, "{:?} in {:?}", rule, s);
        }
    }
}

#[test]
fn local_labels_are_those_of_the_pattern() {
    let re = Regex::new(r"(?i)\A[a-z0-9]+(?:[._-][a-z0-9]+)*\z").unwrap();
    let mut numbers = Numbers(4);
    let pieces = ["a", "B", "0", "1", ".", "_", "-", "+", " ", "\u{17f}", "\u{212a}", "\u{e9}"];
    for _ in 0..3000 {
        let s = numbers.text(&pieces, 5);
        let parts = VersionParts {
            release: vec![1],
            local: Some(s.clone()),
            ..Default::default()
        };
        assert_eq!(Version::from_parts(parts).is_ok(), re.is_match(&s), "{:?}", s);
    }
}

#[test]
fn normalized_names_are_those_of_the_pattern() {
    // Two dashes in a row may stand directly behind the first character only.
    let shape = Regex::new(r"\A[a-z0-9](?:[a-z0-9-]*[a-z0-9])?\z").unwrap();
    let mut numbers = Numbers(5);
    let pieces = ["a", "B", "0", "-", "--", ".", "_", "\u{e9}"];
    for _ in 0..3000 {
        let s = numbers.text(&pieces, 5);
        let doubled = s.char_indices().any(|(i, _)| i > 1 && s[i..].starts_with("--"));
        assert_eq!(
            is_normalized_name(&s),
            shape.is_match(&s) && !doubled,
            "{:?}",
            s
        );
    }
}
