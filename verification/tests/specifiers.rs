use pyreq::{Specifier, SpecifierSet};

fn s(spec: &str) -> Specifier {
    Specifier::parse(spec).unwrap_or_else(|e| panic!("{}", e.to_string()))
}

#[test]
fn parses_each_operator() {
    let cases = [
        ("==1.2.3", "==", "1.2.3"),
        ("!=1.0", "!=", "1.0"),
        (">=1.0.0", ">=", "1.0.0"),
        ("<=2.0", "<=", "2.0"),
        ("<2", "<", "2"),
        (">3", ">", "3"),
        ("~=2.2", "~=", "2.2"),
        ("===foobar", "===", "foobar"),
        ("==1.0.*", "==", "1.0.*"),
    ];
    for (input, op, ver) in cases {
        let spec = s(input);
        assert_eq!(spec.operator(), op, "operator of {input:?}");
        assert_eq!(spec.version(), ver, "version of {input:?}");
    }
}

#[test]
fn strips_surrounding_and_inner_whitespace() {
    let spec = s("  >=  1.0  ");
    assert_eq!(spec.operator(), ">=");
    assert_eq!(spec.version(), "1.0");
    assert_eq!(spec.to_string(), ">=1.0");
}

#[test]
fn display_roundtrips() {
    for input in ["==1.2.3", ">=1.0.0", "~=2.2", "!=1.0.*", "===foobar", "<2.0"] {
        assert_eq!(s(input).to_string(), input);
    }
}

#[test]
fn specifiers_rejects_invalid() {
    for bad in [
        "lolwat",    // no operator
        "1.0.0",     // missing operator
        "==",        // missing version
        "= =1.0",    // broken operator
        "~=1",       // compatible needs >= 2 release components
        "<1.0.*",    // wildcard only allowed for == / !=
        ">=1.0+abc", // local not allowed outside == / !=
        "~=1.0+abc", // local not allowed for ~=
    ] {
        assert!(
            Specifier::parse(bad).is_err(),
            "expected {bad:?} to be invalid"
        );
    }
}

#[test]
fn greater_equal_excludes_prereleases_by_default() {
    let spec = s(">=1.2.3");
    assert!(spec.contains("1.2.3", None));
    assert!(!spec.contains("1.0.0", None));
    // A non-prerelease spec excludes matching pre-releases by default.
    assert!(!spec.contains("1.3.0a1", None));
    assert!(spec.contains("1.3.0a1", Some(true))); // ...unless forced on
}

#[test]
fn equal_and_not_equal() {
    assert!(s("==1.2.3").contains("1.2.3", None));
    assert!(s("==1.2.3").contains("1.2.3.0", None)); // trailing-zero equal
    assert!(!s("==1.2.3").contains("1.2.4", None));
    assert!(s("==1.2.3").contains("1.2.3+local", None)); // spec has no local -> local ignored
    assert!(!s("!=1.2.3").contains("1.2.3", None));
    assert!(s("!=1.2.3").contains("1.2.4", None));
}

#[test]
fn wildcards() {
    let spec = s("==1.0.*");
    assert!(spec.contains("1.0", None));
    assert!(spec.contains("1.0.5", None));
    assert!(!spec.contains("1.1", None));
    assert!(spec.contains("1.0a1", Some(true)));
    let neq = s("!=1.0.*");
    assert!(!neq.contains("1.0.5", None));
    assert!(neq.contains("1.1", None));
}

#[test]
fn compatible_release() {
    let spec = s("~=2.2");
    assert!(spec.contains("2.2", None));
    assert!(spec.contains("2.5", None));
    assert!(!spec.contains("3.0", None));
    assert!(!spec.contains("2.1", None));
    let three = s("~=1.4.5");
    assert!(three.contains("1.4.5", None));
    assert!(three.contains("1.4.99", None));
    assert!(!three.contains("1.5.0", None));
}

#[test]
fn strict_less_and_greater_exclude_boundary_family() {
    // <1.0 excludes 1.0 and its own pre-releases.
    let lt = s("<1.0");
    assert!(lt.contains("0.9", None));
    assert!(!lt.contains("1.0", None));
    assert!(!lt.contains("1.0a1", Some(true))); // pre-release of 1.0 is excluded
    // >1.0 excludes 1.0, its posts, and its locals.
    let gt = s(">1.0");
    assert!(gt.contains("1.0.1", None));
    assert!(!gt.contains("1.0", None));
    assert!(!gt.contains("1.0.post1", None));
    assert!(!gt.contains("1.0+local", None));
    assert!(gt.contains("2.0", None));
}

#[test]
fn arbitrary_equality() {
    // `===V` compares the normalized item against the raw spec string.
    let spec = s("===1.0");
    assert!(spec.contains("1.0", None));
    assert!(spec.contains("v1.0", None)); // normalizes to "1.0"
    assert!(!spec.contains("1.0.0", None)); // normalizes to "1.0.0", not "1.0"
    assert!(!spec.contains("2.0", None));
    assert!(s("===0").contains("0!0", None)); // "0!0" normalizes to "0"
    // What is no version never matches.
    assert!(!s("===foobar").contains("foobar", None));
}

#[test]
fn prerelease_spec_accepts_prereleases() {
    // A pre-release in the spec implies pre-releases are accepted by default.
    let spec = s(">=1.0a1");
    assert!(spec.contains("1.0a2", None));
    assert!(spec.contains("1.0b1", None));
}

fn set(s: &str) -> SpecifierSet {
    SpecifierSet::parse(s).unwrap_or_else(|e| panic!("{}", e.to_string()))
}

#[test]
fn set_contains_requires_all() {
    let ss = set(">=1.0.0,!=1.0.1");
    assert!(ss.contains("1.2.3", None));
    assert!(!ss.contains("1.0.1", None)); // excluded by !=
    assert!(!ss.contains("0.9", None)); // below >=
    assert!(!ss.contains("1.3.0a1", None)); // pre-release excluded by default
    assert!(ss.contains("1.3.0a1", Some(true)));
}

#[test]
fn set_intersection_bounds() {
    let ss = set(">=1.0,<2.0");
    assert!(ss.contains("1.5", None));
    assert!(!ss.contains("2.0", None));
    assert!(!ss.contains("0.5", None));
}

#[test]
fn empty_set_matches_everything() {
    let ss = set("");
    assert!(ss.is_empty());
    assert!(ss.contains("1.0", None));
    // An empty set has an unknown (None) prerelease policy, which still excludes prereleases.
    assert!(!ss.contains("1.5a1", None));
    assert!(ss.contains("1.5a1", Some(true)));
}

#[test]
fn set_display_sorts_and_dedupes() {
    assert_eq!(set(">=1.0.0,!=2.0.0").to_string(), "!=2.0.0,>=1.0.0");
    assert_eq!(set("==1.0,==1.0.0").to_string(), "==1.0"); // canonical duplicate dropped
    assert_eq!(set("").to_string(), "");
}

#[test]
fn set_equality_is_canonical() {
    assert_eq!(set(">=1.0,!=1.1"), set("!=1.1,>=1.0")); // order-independent
    assert_eq!(set("==1.0"), set("==1.0.0")); // canonical
    assert_ne!(set(">=1.0"), set(">=2.0"));
}

#[test]
fn set_rejects_invalid_member() {
    assert!(SpecifierSet::parse(">=1.0,lolwat").is_err());
}

#[test]
fn specifier_filter_buffers_prereleases() {
    let spec = s(">=1.2.3");
    // A final exists, so the matching pre-release is dropped.
    assert_eq!(spec.filter(&["1.2", "1.3", "1.5a1"], None), vec!["1.3"]);
    // No final matches, so the pre-release is kept.
    assert_eq!(spec.filter(&["1.2", "1.5a1"], None), vec!["1.5a1"]);
    // Forced on: keep everything that matches.
    assert_eq!(spec.filter(&["1.3", "1.5a1"], Some(true)), vec!["1.3", "1.5a1"]);
    // Forced off: drop the pre-release.
    assert_eq!(spec.filter(&["1.3", "1.5a1"], Some(false)), vec!["1.3"]);
}

#[test]
fn set_filter() {
    let ss = set(">=1.2.3");
    assert_eq!(ss.filter(&["1.2", "1.3", "1.5a1"], None), vec!["1.3"]);

    let empty = set("");
    assert_eq!(empty.filter(&["1.3", "1.5a1"], None), vec!["1.3"]);
    assert_eq!(empty.filter(&["1.5a1"], None), vec!["1.5a1"]);
    assert_eq!(
        empty.filter(&["1.3", "1.5a1"], Some(true)),
        vec!["1.3", "1.5a1"]
    );
}
