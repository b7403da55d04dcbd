use std::collections::{HashMap, HashSet};

use pyreq::{EnvValue, EvaluateContext, Marker, MarkerError};

fn m(s: &str) -> Marker {
    Marker::parse(s).unwrap_or_else(|e| panic!("{}", e.to_string()))
}

#[test]
fn parses_and_roundtrips_simple() {
    assert_eq!(m("python_version > \"3.6\"").to_string(), "python_version > \"3.6\"");
    assert_eq!(m("os_name == \"posix\"").to_string(), "os_name == \"posix\"");
    assert_eq!(m("\"3.6\" == python_version").to_string(), "\"3.6\" == python_version");
}

#[test]
fn normalizes_variable_aliases() {
    // `os.name` -> `os_name`, `platform.python_implementation` -> canonical name.
    assert_eq!(m("os.name == \"nt\"").to_string(), "os_name == \"nt\"");
    assert_eq!(
        m("platform.python_implementation == \"CPython\"").to_string(),
        "platform_python_implementation == \"CPython\""
    );
    assert_eq!(
        m("python_implementation == \"PyPy\"").to_string(),
        "platform_python_implementation == \"PyPy\""
    );
}

#[test]
fn boolean_and_grouping() {
    assert_eq!(
        m("python_version > \"3.6\" and os_name == \"posix\"").to_string(),
        "python_version > \"3.6\" and os_name == \"posix\""
    );
    // Redundant outer parens are stripped; needed inner ones kept.
    assert_eq!(
        m("(python_version == \"3.6\")").to_string(),
        "python_version == \"3.6\""
    );
    assert_eq!(
        m("python_version > \"3.6\" or (python_version == \"3.6\" and os_name == \"unix\")")
            .to_string(),
        "python_version > \"3.6\" or (python_version == \"3.6\" and os_name == \"unix\")"
    );
}

#[test]
fn in_and_not_in() {
    assert_eq!(
        m("\"arm\" in platform_machine").to_string(),
        "\"arm\" in platform_machine"
    );
    assert_eq!(
        m("platform_machine not in \"x86_64\"").to_string(),
        "platform_machine not in \"x86_64\""
    );
}

#[test]
fn extra_value_is_normalized() {
    assert_eq!(m("extra == \"Foo.Bar\"").to_string(), "extra == \"foo-bar\"");
}

#[test]
fn equality_is_canonical() {
    assert_eq!(m("(os_name == \"nt\")"), m("os_name == \"nt\""));
    assert_ne!(m("os_name == \"nt\""), m("os_name == \"posix\""));
}

#[test]
fn markers_rejects_invalid() {
    for bad in [
        "",
        "python_version",
        "python_version ==",
        "== \"3.6\"",
        "python_version = \"3.6\"",
        "(python_version == \"3.6\"",
        "foo == \"bar\"",
    ] {
        assert!(Marker::parse(bad).is_err(), "expected {bad:?} invalid");
    }
}

fn env() -> HashMap<String, String> {
    [
        ("python_version", "3.9"),
        ("python_full_version", "3.9.7"),
        ("os_name", "posix"),
        ("sys_platform", "linux"),
        ("platform_machine", "x86_64"),
        ("platform_python_implementation", "CPython"),
        ("implementation_name", "cpython"),
        ("extra", "test"),
    ]
    .iter()
    .map(|(k, v)| (k.to_string(), v.to_string()))
    .collect()
}

#[test]
fn evaluate_version_keys_use_specifier() {
    let e = env();
    assert!(m("python_version >= \"3.6\"").evaluate(&e).unwrap());
    assert!(!m("python_version < \"3.8\"").evaluate(&e).unwrap());
    assert!(m("python_version <= \"3.9\"").evaluate(&e).unwrap()); // real <=, not string-eq
    assert!(m("python_full_version >= \"3.9.0\"").evaluate(&e).unwrap());
}

#[test]
fn evaluate_string_keys_and_operators() {
    let e = env();
    assert!(m("os_name == \"posix\"").evaluate(&e).unwrap());
    assert!(!m("sys_platform == \"win32\"").evaluate(&e).unwrap());
    assert!(m("os_name != \"nt\"").evaluate(&e).unwrap());
    assert!(m("\"x86\" in platform_machine").evaluate(&e).unwrap());
    assert!(m("platform_machine not in \"arm64\"").evaluate(&e).unwrap());
    // Ordering operators on other keys compare strings
    // lexicographically (os_name = "posix").
    assert!(m("os_name < \"z\"").evaluate(&e).unwrap());
    assert!(m("os_name > \"a\"").evaluate(&e).unwrap());
    assert!(m("os_name <= \"posix\"").evaluate(&e).unwrap());
    assert!(m("os_name <= \"z\"").evaluate(&e).unwrap());
    assert!(m("os_name >= \"posix\"").evaluate(&e).unwrap());
    assert!(!m("os_name >= \"z\"").evaluate(&e).unwrap());
}

#[test]
fn evaluate_boolean_logic() {
    let e = env();
    assert!(
        m("python_version >= \"3.6\" and os_name == \"posix\"")
            .evaluate(&e)
            .unwrap()
    );
    assert!(
        !m("python_version < \"3.0\" and os_name == \"posix\"")
            .evaluate(&e)
            .unwrap()
    );
    assert!(
        m("python_version < \"3.0\" or os_name == \"posix\"")
            .evaluate(&e)
            .unwrap()
    );
}

#[test]
fn string_escapes_are_decoded() {
    // \x2e is '.', so the literal becomes "3.6"; round-trips through Display too.
    assert_eq!(
        m("python_version == \"3\\x2e6\"").to_string(),
        "python_version == \"3.6\""
    );
    // \\ and \n decode to a backslash and a newline.
    assert_eq!(m("os_name == \"a\\\\b\"").to_string(), "os_name == \"a\\b\"");
    assert_eq!(
        m("os_name == \"a\\nb\"").to_string(),
        "os_name == \"a\nb\""
    );
    // Unknown escape \d keeps both characters literally.
    assert_eq!(
        m("os_name == \"a\\db\"").to_string(),
        "os_name == \"a\\db\""
    );
}

#[test]
fn malformed_escapes_are_rejected() {
    // Truncated \x and an unsupported \N{...} fail to parse.
    assert!(Marker::parse("os_name == \"a\\x1\"").is_err());
    assert!(Marker::parse("os_name == \"\\N{BULLET}\"").is_err());
}

#[test]
fn evaluate_canonicalizes_extra() {
    // The marker side is canonicalized at parse time; the env value at eval time.
    let mut e = HashMap::new();
    e.insert("extra".to_string(), "Foo.Bar".to_string());
    assert!(m("extra == \"foo-bar\"").evaluate(&e).unwrap());
}

#[test]
fn evaluate_repairs_python_full_version() {
    // A non-tagged build reports "3.11.0+"; repair appends "local" so it parses as a
    // version and the comparison succeeds.
    let mut e = HashMap::new();
    e.insert("python_full_version".to_string(), "3.11.0+".to_string());
    assert!(m("python_full_version >= \"3.11.0\"").evaluate(&e).unwrap());
}

#[test]
fn lock_file_context_supplies_empty_sets() {
    let empty = HashMap::new();
    // With no caller env, the lock-file context still defines extras as an empty set, so
    // membership is false (rather than UndefinedEnvironmentName).
    assert!(
        !m("\"cpu\" in extras")
            .evaluate_with_context(&empty, EvaluateContext::LockFile)
            .unwrap()
    );
    assert!(
        m("\"cpu\" not in extras")
            .evaluate_with_context(&empty, EvaluateContext::LockFile)
            .unwrap()
    );
}

#[test]
fn set_membership_and_canonicalization() {
    let mut e = HashMap::new();
    e.insert(
        "extras".to_string(),
        EnvValue::StrSet(HashSet::from(["foo-bar".to_string(), "gpu".to_string()])),
    );
    assert!(
        m("\"gpu\" in extras")
            .evaluate_with_context(&e, EvaluateContext::LockFile)
            .unwrap()
    );
    // The literal is canonicalized before membership, so "Foo.Bar" matches "foo-bar".
    assert!(
        m("\"Foo.Bar\" in extras")
            .evaluate_with_context(&e, EvaluateContext::LockFile)
            .unwrap()
    );
    assert!(
        !m("\"missing\" in extras")
            .evaluate_with_context(&e, EvaluateContext::LockFile)
            .unwrap()
    );
}

#[test]
fn dependency_groups_set() {
    let mut e = HashMap::new();
    e.insert(
        "dependency_groups".to_string(),
        EnvValue::StrSet(HashSet::from(["test".to_string()])),
    );
    assert!(
        m("\"test\" in dependency_groups")
            .evaluate_with_context(&e, EvaluateContext::LockFile)
            .unwrap()
    );
}

#[test]
fn metadata_context_supplies_empty_extra() {
    let empty = HashMap::new();
    assert!(
        !m("extra == \"foo\"")
            .evaluate_with_context(&empty, EvaluateContext::Metadata)
            .unwrap()
    );
    let mut e = HashMap::new();
    e.insert("extra".to_string(), EnvValue::Str("Foo".to_string()));
    assert!(
        m("extra == \"foo\"")
            .evaluate_with_context(&e, EvaluateContext::Metadata)
            .unwrap()
    );
}

#[test]
fn set_valued_variable_on_left_errors() {
    let mut e = HashMap::new();
    e.insert("extras".to_string(), EnvValue::StrSet(HashSet::new()));
    assert!(matches!(
        m("extras == \"foo\"").evaluate_with_context(&e, EvaluateContext::LockFile),
        Err(MarkerError::UndefinedComparison(_))
    ));
}

#[test]
fn set_op_equality_and_ordering() {
    let mut e = HashMap::new();
    e.insert(
        "extras".to_string(),
        EnvValue::StrSet(HashSet::from(["gpu".to_string()])),
    );
    let ctx = EvaluateContext::LockFile;
    // A string never equals a set: == is always false, != always true.
    assert!(!m("\"gpu\" == extras").evaluate_with_context(&e, ctx).unwrap());
    assert!(m("\"gpu\" != extras").evaluate_with_context(&e, ctx).unwrap());
    // Ordering a string against a set is undefined.
    for op in ["<", "<=", ">=", ">"] {
        assert!(
            matches!(
                m(&format!("\"gpu\" {op} extras")).evaluate_with_context(&e, ctx),
                Err(MarkerError::UndefinedComparison(_))
            ),
            "op {op:?} should be an undefined comparison against a set"
        );
    }
}

#[test]
fn requirement_context_injects_nothing() {
    let empty = HashMap::new();
    // No defaults, so a reference to extras is undefined.
    assert!(matches!(
        m("\"x\" in extras").evaluate_with_context(&empty, EvaluateContext::Requirement),
        Err(MarkerError::UndefinedEnvironmentName(_))
    ));
}

#[test]
fn evaluate_errors() {
    let e = env();
    // Undefined comparison: `~=` on a non-version key.
    assert!(matches!(
        m("os_name ~= \"1.0\"").evaluate(&e),
        Err(MarkerError::UndefinedComparison(_))
    ));
    // Missing environment key.
    let mut sparse = HashMap::new();
    sparse.insert("os_name".to_string(), "posix".to_string());
    assert!(matches!(
        m("python_version == \"3.9\"").evaluate(&sparse),
        Err(MarkerError::UndefinedEnvironmentName(_))
    ));
}
