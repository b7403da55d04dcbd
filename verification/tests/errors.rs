use std::collections::HashMap;

use pyreq::{
    parse_sdist_filename, parse_tag, parse_wheel_filename, EnvValue, EvaluateContext, InvalidTag,
    InvalidVersion, Marker, MarkerError, Requirement, Specifier, SpecifierSet, TagParseError,
    UnsortedTagsError, Version, VersionParts,
};

fn marker_error(s: &str) -> String {
    match Marker::parse(s) {
        Ok(_) => panic!("{:?} should be no marker", s),
        Err(e) => {
            assert_eq!(e.to_string(), e.0);
            e.0
        }
    }
}

fn requirement_error(s: &str) -> String {
    match Requirement::parse(s) {
        Ok(_) => panic!("{:?} should be no requirement", s),
        Err(e) => {
            assert_eq!(e.to_string(), e.0);
            e.0
        }
    }
}

#[test]
fn version_errors_hold_the_text() {
    let e = Version::parse(" bad ").unwrap_err();
    assert_eq!(e, InvalidVersion(" bad ".to_string()));
    assert_eq!(e.to_string(), "Invalid version: ' bad '");
    assert_eq!(e.clone(), e);
}

#[test]
fn numbers_beyond_the_machine_are_no_versions() {
    assert!(Version::parse("18446744073709551615").is_ok());
    assert!(Version::parse("18446744073709551616").is_err());
    assert!(Version::parse("1.0a18446744073709551616").is_err());
    assert!(Version::parse("18446744073709551616!1").is_err());
    assert!(Version::parse("1.0+18446744073709551616").is_err());
    // Such a number in a specifier leaves nothing for it to match.
    let big = "18446744073709551616";
    for op in ["==", "~=1.", "<=", ">=", "<", ">"] {
        let s = Specifier::parse(&format!("{}{}", op, big)).unwrap();
        assert!(!s.contains("1.0", Some(true)), "{}", op);
    }
    let s = Specifier::parse(&format!("!={}", big)).unwrap();
    assert!(s.contains("1.0", Some(true)));
}

#[test]
fn parts_errors_say_what_is_wrong() {
    let e = Version::from_parts(VersionParts::default()).unwrap_err();
    assert_eq!(e.0, "release must be a non-empty list of components");
    let parts = VersionParts {
        release: vec![1],
        local: Some("bad!\"local".to_string()),
        ..Default::default()
    };
    let e = Version::from_parts(parts).unwrap_err();
    assert_eq!(e.0, "invalid local label: \"bad!\\\"local\"");
}

#[test]
fn specifier_errors_hold_the_text() {
    let e = Specifier::parse(" foo").unwrap_err();
    assert_eq!(e.0, " foo");
    assert_eq!(e.to_string(), "Invalid specifier: ' foo'");
    // In a set it is the piece that is wrong, without the white space around it.
    let e = SpecifierSet::parse(">=1.0, foo ,bar").unwrap_err();
    assert_eq!(e.0, "foo");
}

#[test]
fn marker_errors_point_at_the_place() {
    assert_eq!(
        marker_error(""),
        "Expected a marker variable or quoted string\n    \n    ^"
    );
    assert_eq!(
        marker_error("os_name = \"x\""),
        "Expected marker operator, one of <=, <, !=, ==, >=, >, ~=, ===, in, not in\n    \
         os_name = \"x\"\n            ^"
    );
    assert_eq!(
        marker_error("(os_name == \"x\""),
        "Expected matching RIGHT_PARENTHESIS for LEFT_PARENTHESIS, after marker expression\n    \
         (os_name == \"x\"\n    ~~~~~~~~~~~~~~~^"
    );
    assert_eq!(
        marker_error("os_name == \"x\" foo"),
        "Expected end of marker expression\n    os_name == \"x\" foo\n                   ^"
    );
    assert_eq!(
        marker_error("os_name not \"x\""),
        "Expected 'in' after 'not'\n    os_name not \"x\"\n                ^"
    );
    assert_eq!(
        marker_error("os_name not"),
        "Expected whitespace after 'not'\n    os_name not\n               ^"
    );
    assert_eq!(
        marker_error("os_name == \"\\x1\""),
        "Invalid quoted string\n    os_name == \"\\x1\"\n               ~~~~~^"
    );
}

#[test]
fn places_are_counted_in_bytes() {
    // The letter takes two bytes.
    assert_eq!(
        marker_error("\"\u{e9}\" = os_name"),
        "Expected marker operator, one of <=, <, !=, ==, >=, >, ~=, ===, in, not in\n    \
         \"\u{e9}\" = os_name\n         ^"
    );
}

#[test]
fn requirement_errors_point_at_the_place() {
    assert_eq!(
        requirement_error("==1.0"),
        "Expected package name at the start of dependency specifier\n    ==1.0\n    ^"
    );
    assert_eq!(
        requirement_error("foo bar"),
        "Expected semicolon (after name with no version specifier) or end\n    foo bar\n        ^"
    );
    assert_eq!(
        requirement_error("foo>=1.0 bar"),
        "Expected comma (within version specifier), semicolon (after version specifier) or end\n    \
         foo>=1.0 bar\n       ~~~~~~^"
    );
    assert_eq!(
        requirement_error("foo>=1.0.*"),
        ".* suffix can only be used with `==` or `!=` operators\n    foo>=1.0.*\n       ~~~~~~^"
    );
    assert_eq!(
        requirement_error("foo>=1.0+abc"),
        "Local version label can only be used with `==` or `!=` operators\n    \
         foo>=1.0+abc\n       ~~~~~^"
    );
    assert_eq!(
        requirement_error("foo>=1.0,"),
        "Expected version specifier after comma\n    foo>=1.0,\n             ^"
    );
    assert_eq!(
        requirement_error("foo (>=1.0, )"),
        "Expected version specifier after comma\n    foo (>=1.0, )\n                ^"
    );
    assert_eq!(
        requirement_error("foo>=1.0 , ; os_name == 'x'"),
        "Expected version specifier after comma\n    foo>=1.0 , ; os_name == 'x'\n               ^"
    );
    assert_eq!(
        requirement_error("foo[a b]"),
        "Expected comma between extra names\n    foo[a b]\n          ^"
    );
    assert_eq!(
        requirement_error("foo[a,]"),
        "Expected extra name after comma\n    foo[a,]\n          ^"
    );
    assert_eq!(
        requirement_error("foo[a"),
        "Expected matching RIGHT_BRACKET for LEFT_BRACKET, after extras\n    foo[a\n       ~~^"
    );
    assert_eq!(
        requirement_error("foo (>=1.0"),
        "Expected matching RIGHT_PARENTHESIS for LEFT_PARENTHESIS, after version specifier\n    \
         foo (>=1.0\n        ~~~~~~^"
    );
    assert_eq!(
        requirement_error("foo @"),
        "Expected URL after @\n    foo @\n         ^"
    );
    assert_eq!(
        requirement_error("foo @ http://x y"),
        "Expected semicolon (after URL and whitespace) or end\n    \
         foo @ http://x y\n          ~~~~~~~~~^"
    );
    assert_eq!(
        requirement_error("foo===1,2"),
        "Invalid specifier: '2'"
    );
}

#[test]
fn evaluation_errors_say_what_is_wrong() {
    let mut env = HashMap::new();
    env.insert("os_name".to_string(), "posix".to_string());
    let m = Marker::parse("os_name ~= \"1.0\"").unwrap();
    let e = m.evaluate(&env).unwrap_err();
    assert_eq!(
        e,
        MarkerError::UndefinedComparison("Undefined \"~=\" on \"posix\" and \"1.0\".".to_string())
    );
    assert_eq!(e.to_string(), "Undefined \"~=\" on \"posix\" and \"1.0\".");
    let m = Marker::parse("sys_platform == \"x\"").unwrap();
    let e = m.evaluate(&env).unwrap_err();
    assert_eq!(e, MarkerError::UndefinedEnvironmentName("sys_platform".to_string()));
    assert_eq!(
        e.to_string(),
        "\"sys_platform\" does not exist in evaluation environment."
    );
    // Between two texts the right one is taken for the name of a variable.
    let m = Marker::parse("\"a\" == \"b\"").unwrap();
    assert_eq!(
        m.evaluate(&env).unwrap_err(),
        MarkerError::UndefinedEnvironmentName("b".to_string())
    );
    // The first failure counts, also where a later part would hold.
    let m = Marker::parse("sys_platform == \"x\" or os_name == \"posix\"").unwrap();
    assert!(m.evaluate(&env).is_err());
}

#[test]
fn set_errors_say_what_is_wrong() {
    let env: HashMap<String, EnvValue> = HashMap::new();
    let failure = |s: &str| {
        Marker::parse(s)
            .unwrap()
            .evaluate_with_context(&env, EvaluateContext::LockFile)
            .unwrap_err()
            .to_string()
    };
    assert_eq!(
        failure("extras == \"x\""),
        "\"extras\" is set-valued and can only appear on the right of a comparison"
    );
    assert_eq!(
        failure("\"X\" <= extras"),
        "'<=' not supported between a string and a set (\"X\")"
    );
    assert_eq!(
        failure("\"X\" === dependency_groups"),
        "Undefined \"===\" on \"X\" and a set."
    );
}

#[test]
fn tag_errors_say_what_is_wrong() {
    assert_eq!(
        parse_tag("py3.-none-any", false).unwrap_err(),
        TagParseError::Invalid(InvalidTag(
            "Tag \"py3.-none-any\" has an empty component: \"py3.\"".to_string()
        ))
    );
    assert_eq!(
        parse_tag("py3-none", false).unwrap_err(),
        TagParseError::Invalid(InvalidTag(
            "Tag \"py3-none\" must have exactly three dash-separated components".to_string()
        ))
    );
    let e = UnsortedTagsError(
        "Tag component \"py3.py2\" is not in sorted order per PEP 425".to_string(),
    );
    assert_eq!(e.to_string(), e.0);
    assert_eq!(
        parse_tag("py3.py2-none-any", true).unwrap_err(),
        TagParseError::Unsorted(e)
    );
    assert_eq!(InvalidTag("x".to_string()).to_string(), "x");
}

#[test]
fn wheel_errors_say_what_is_wrong() {
    let failure = |s: &str, order: bool| {
        let e = parse_wheel_filename(s, order).unwrap_err();
        assert_eq!(e.to_string(), e.0);
        e.0
    };
    assert_eq!(
        failure("foo.zip", false),
        "Invalid wheel filename (extension must be '.whl'): \"foo.zip\""
    );
    assert_eq!(
        failure("foo-1.0-py3-none.whl", false),
        "Invalid wheel filename (wrong number of parts): \"foo-1.0-py3-none\""
    );
    assert_eq!(
        failure("f__o-1.0-py3-none-any.whl", false),
        "Invalid project name: \"f__o-1.0-py3-none-any\""
    );
    assert_eq!(
        failure("foo-x-py3-none-any.whl", false),
        "Invalid wheel filename (invalid version): \"foo-x-py3-none-any\""
    );
    assert_eq!(
        failure("foo-1.0-x1-py3-none-any.whl", false),
        "Invalid build number: x1 in \"foo-1.0-x1-py3-none-any\""
    );
    assert_eq!(
        failure("foo-1.0-18446744073709551616-py3-none-any.whl", false),
        "Invalid build number: 18446744073709551616 in \
         \"foo-1.0-18446744073709551616-py3-none-any\""
    );
    assert_eq!(
        failure("foo-1.0-py3--any.whl", false),
        "Invalid wheel filename (empty tag component): \"foo-1.0-py3--any\""
    );
    assert_eq!(
        failure("foo-1.0-py3.py2-none-any.whl", true),
        "Invalid wheel filename (compressed tag set components must be in sorted order per PEP \
         425): \"foo-1.0-py3.py2-none-any\""
    );
}

#[test]
fn sdist_errors_say_what_is_wrong() {
    let failure = |s: &str| {
        let e = parse_sdist_filename(s).unwrap_err();
        assert_eq!(e.to_string(), e.0);
        e.0
    };
    assert_eq!(
        failure("foo-1.0.whl"),
        "Invalid sdist filename (extension must be '.tar.gz' or '.zip'): \"foo-1.0.whl\""
    );
    assert_eq!(failure("foo.zip"), "Invalid sdist filename: \"foo.zip\"");
    assert_eq!(
        failure("foo-x.tar.gz"),
        "Invalid sdist filename (invalid version): \"foo-x.tar.gz\""
    );
}
