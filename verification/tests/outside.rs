//! What the library takes from outside, seen through its own functions.

use std::collections::{HashMap, HashSet};

use pyreq::{
    canonicalize_name, parse_wheel_filename, EnvValue, EvaluateContext, Marker, Requirement,
    Specifier, Tag,
};

#[test]
fn word_characters_follow_unicode() {
    // A name ends where a word does, and letters beyond ASCII go on with it.
    assert!(Requirement::parse("foo\u{2014}").is_err());
    assert!(Requirement::parse("foo\u{e9}").is_err());
    let (name, _, _, _) =
        parse_wheel_filename("caf\u{e9}-1.0-py3-none-any.whl", false).unwrap();
    assert_eq!(name, "caf\u{e9}");
    assert!(parse_wheel_filename("caf\u{2014}-1.0-py3-none-any.whl", false).is_err());
    // `and` is no word of its own before a letter.
    assert!(Marker::parse("os_name == 'a' and\u{e9} == 'b'").is_err());
}

#[test]
fn lower_case_follows_unicode() {
    assert_eq!(canonicalize_name("\u{c9}T\u{c9}"), "\u{e9}t\u{e9}");
    // A capital sigma at the end of a word.
    assert_eq!(canonicalize_name("\u{3a3}\u{391}\u{3a3}"), "\u{3c3}\u{3b1}\u{3c2}");
    assert_eq!(Tag::new("\u{c9}", "B", "C").interpreter(), "\u{e9}");
    assert!(Specifier::parse("===1.0+ABC").unwrap().contains("1.0+abc", None));
}

#[test]
fn messages_quote_as_strings_are_shown() {
    let e = Marker::parse("os_name == 'x'").unwrap().evaluate(&HashMap::new()).unwrap_err();
    assert_eq!(e.to_string(), "\"os_name\" does not exist in evaluation environment.");
    let e = parse_wheel_filename("a\tb\u{e9}\u{200b}", false).unwrap_err();
    assert_eq!(
        e.0,
        "Invalid wheel filename (extension must be '.whl'): \"a\\tb\u{e9}\\u{200b}\""
    );
}

#[test]
fn escapes_stand_for_characters() {
    let shown = |s: &str| Marker::parse(s).map(|m| m.to_string());
    assert_eq!(
        shown(r#"os_name == "\x41\u00e9\U0001f600\101\0""#).unwrap(),
        "os_name == \"A\u{e9}\u{1f600}A\u{0}\""
    );
    assert_eq!(
        shown(r#"os_name == '\a\b\f\r\t\v\"'"#).unwrap(),
        "os_name == \"\u{7}\u{8}\u{c}\r\t\u{b}\"\""
    );
    assert_eq!(shown("os_name == 'a\\\nb'").unwrap(), "os_name == \"ab\"");
    assert_eq!(shown(r#"os_name == "\777""#).unwrap(), "os_name == \"\u{1ff}\"");
    assert_eq!(shown(r#"os_name == "\1234""#).unwrap(), "os_name == \"S4\"");
    // Surrogates and what is beyond Unicode stand for nothing, and neither does a lone backslash.
    assert!(shown(r#"os_name == "\ud800""#).is_err());
    assert!(shown(r#"os_name == "\U00110000""#).is_err());
    assert!(shown(r#"os_name == "\Uffffffff""#).is_err());
    assert!(shown(r#"os_name == "\u12""#).is_err());
    assert!(shown(r#"os_name == "a\""#).is_err());
}

#[test]
fn maps_are_searched_by_text() {
    let mut env = HashMap::new();
    for (k, v) in [("os_name", "posix"), ("sys_platform", "linux"), ("platform_machine", "x86")] {
        env.insert(k.to_string(), v.to_string());
    }
    for (k, v) in [("os_name", "posix"), ("sys_platform", "linux"), ("platform_machine", "x86")] {
        let m = Marker::parse(&format!("{} == \"{}\"", k, v)).unwrap();
        assert_eq!(m.evaluate(&env), Ok(true));
    }
}

#[test]
fn sets_are_searched_member_by_member() {
    let names: HashSet<String> =
        ["Foo.Bar", "baz", "Qux_1"].iter().map(|s| s.to_string()).collect();
    let value = EnvValue::StrSet(names);
    let copy = value.clone();
    assert_eq!(copy, value);
    let mut env = HashMap::new();
    env.insert("extras".to_string(), copy);
    env.insert("os_name".to_string(), value);
    let holds = |s: &str| {
        Marker::parse(s).unwrap().evaluate_with_context(&env, EvaluateContext::Requirement)
    };
    assert_eq!(holds("'foo-bar' in extras"), Ok(true));
    assert_eq!(holds("'QUX.1' in extras"), Ok(true));
    assert_eq!(holds("'quux' in extras"), Ok(false));
    assert_eq!(holds("'quux' not in extras"), Ok(true));
    // For other variables the texts have to be the same.
    assert_eq!(holds("'Foo.Bar' in os_name"), Ok(true));
    assert_eq!(holds("'foo-bar' in os_name"), Ok(false));
}

#[test]
fn equal_values_are_found_in_hashed_sets() {
    let mut set = HashSet::new();
    set.insert(Specifier::parse("==1.0").unwrap());
    assert!(set.contains(&Specifier::parse("==1.0.0").unwrap()));
    assert!(!set.contains(&Specifier::parse("~=1.0.0").unwrap()));
    let mut set = HashSet::new();
    set.insert(Requirement::parse("Foo[b,a]>=1.0; os_name == 'x'").unwrap());
    assert!(set.contains(&Requirement::parse("foo[a, b] >= 1.0.0 ; (os_name == 'x')").unwrap()));
    assert!(!set.contains(&Requirement::parse("foo[a]>=1.0; os_name == 'x'").unwrap()));
    let mut set = HashSet::new();
    set.insert(Tag::new("CP39", "ABI3", "any"));
    assert!(set.contains(&Tag::new("cp39", "abi3", "ANY")));
    assert!(!set.contains(&Tag::new("cp39", "any", "abi3")));
}
