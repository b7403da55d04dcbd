use pyreq::Requirement;

fn r(s: &str) -> Requirement {
    Requirement::parse(s).unwrap_or_else(|e| panic!("{}", e.to_string()))
}

#[test]
fn parses_fields() {
    let req = r("requests[security,socks]>=2.0,<3.0; python_version < \"3.9\"");
    assert_eq!(req.name, "requests");
    assert_eq!(
        req.extras.iter().cloned().collect::<Vec<_>>(),
        vec!["security", "socks"]
    );
    assert_eq!(req.specifier.to_string(), "<3.0,>=2.0");
    assert_eq!(req.url, None);
    assert_eq!(req.marker.unwrap().to_string(), "python_version < \"3.9\"");
}

#[test]
fn display_roundtrips_and_normalizes() {
    assert_eq!(r("requests").to_string(), "requests");
    assert_eq!(r("requests>=2.0").to_string(), "requests>=2.0");
    // extras get sorted; the specifier's version is shown verbatim (not canonicalized).
    assert_eq!(r("foo[B,A]==1.0.0").to_string(), "foo[A,B]==1.0.0");
    assert_eq!(
        r("requests[security]>=2.0; python_version<\"3.9\"").to_string(),
        "requests[security]>=2.0; python_version < \"3.9\""
    );
}

#[test]
fn parenthesized_specifier() {
    assert_eq!(r("foo (>=1.0)").to_string(), "foo>=1.0");
}

#[test]
fn url_form() {
    let req = r("name @ https://example.com/pkg.tar.gz");
    assert_eq!(req.url.as_deref(), Some("https://example.com/pkg.tar.gz"));
    // The URL form has no space before `@`.
    assert_eq!(req.to_string(), "name@ https://example.com/pkg.tar.gz");
    let with_marker = r("name @ https://example.com/p.tgz ; python_version > \"3.0\"");
    assert_eq!(
        with_marker.to_string(),
        "name@ https://example.com/p.tgz ; python_version > \"3.0\""
    );
}

#[test]
fn equality_canonicalizes_name_and_specifier() {
    assert_eq!(r("Foo>=1.0"), r("foo>=1.0.0"));
    assert_eq!(r("foo[A,B]"), r("foo[B,A]"));
    assert_ne!(r("foo>=1.0"), r("foo>=2.0"));
}

#[test]
fn requirements_rejects_invalid() {
    for bad in [
        "",
        "==1.0",
        "foo bar baz",
        "foo>=",
        "foo @",
        "(foo)",
        "foo[]extra",
        "foo; python_version",
    ] {
        assert!(Requirement::parse(bad).is_err(), "expected {bad:?} invalid");
    }
}
