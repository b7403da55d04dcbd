use pyreq::{
    canonicalize_name, canonicalize_version, is_normalized_name, parse_sdist_filename,
    parse_wheel_filename, Tag, Version,
};

#[test]
fn canonicalize_name_normalizes() {
    assert_eq!(canonicalize_name("Django"), "django");
    assert_eq!(canonicalize_name("oslo.concurrency"), "oslo-concurrency");
    assert_eq!(canonicalize_name("foo__bar"), "foo-bar");
    assert_eq!(canonicalize_name("a---b.._c"), "a-b-c");
}

#[test]
fn is_normalized_name_checks() {
    assert!(is_normalized_name("requests"));
    assert!(is_normalized_name("oslo-concurrency"));
    assert!(!is_normalized_name("Django"));
    assert!(!is_normalized_name("foo_bar"));
    assert!(!is_normalized_name("foo.bar"));
    assert!(!is_normalized_name("-ab"));
    assert!(!is_normalized_name("ab-"));
    // A doubled dash is accepted only right after the leading char.
    assert!(is_normalized_name("a--b"));
    assert!(!is_normalized_name("aa--b"));
    assert!(!is_normalized_name("a---b"));
    assert!(!is_normalized_name("a--b--c"));
}

#[test]
fn canonicalize_version_strips_trailing_zeros() {
    assert_eq!(canonicalize_version("1.0.1", true), "1.0.1");
    assert_eq!(canonicalize_version("1.0.0", true), "1");
    assert_eq!(canonicalize_version("1.0.0", false), "1.0.0");
    assert_eq!(canonicalize_version("1.4.0.0.0", true), "1.4");
    // Invalid versions pass through unchanged.
    assert_eq!(canonicalize_version("foo bar baz", true), "foo bar baz");
    // Epoch and suffixes are preserved around the trim.
    assert_eq!(canonicalize_version("1!2.0.0a1", true), "1!2a1");
}

#[test]
fn wheel_filename_basic() {
    let (name, ver, build, tags) =
        parse_wheel_filename("foo-1.0-py3-none-any.whl", false).unwrap();
    assert_eq!(name, "foo");
    assert_eq!(ver, Version::parse("1.0").unwrap());
    assert_eq!(build, None);
    assert_eq!(tags.len(), 1);
    assert!(tags.contains(&Tag::new("py3", "none", "any")));
}

#[test]
fn wheel_filename_with_build_tag() {
    let (name, ver, build, _tags) =
        parse_wheel_filename("foo-1.0-1bar-py3-none-any.whl", false).unwrap();
    assert_eq!(name, "foo");
    assert_eq!(ver, Version::parse("1.0").unwrap());
    assert_eq!(build, Some((1, "bar".to_string())));
}

#[test]
fn wheel_filename_normalizes_name_and_expands_tags() {
    let (name, _ver, _build, tags) =
        parse_wheel_filename("Foo.Bar-2.0-py2.py3-none-any.whl", false).unwrap();
    assert_eq!(name, "foo-bar");
    assert_eq!(tags.len(), 2);
}

#[test]
fn wheel_filename_rejects_bad_input() {
    assert!(parse_wheel_filename("foo-1.0-py3-none-any.tar.gz", false).is_err());
    assert!(parse_wheel_filename("foo-1.0-py3-none.whl", false).is_err()); // too few parts
    assert!(parse_wheel_filename("foo-bad!ver-py3-none-any.whl", false).is_err());
    assert!(parse_wheel_filename("foo bar-1.0-py3-none-any.whl", false).is_err()); // bad name
    assert!(parse_wheel_filename("foo-1.0-bar-py3-none-any.whl", false).is_err()); // build no digit
}

#[test]
fn wheel_filename_validate_order() {
    assert!(parse_wheel_filename("foo-1.0-py3.py2-none-any.whl", false).is_ok());
    assert!(parse_wheel_filename("foo-1.0-py3.py2-none-any.whl", true).is_err());
}

#[test]
fn sdist_filename_basic() {
    let (name, ver) = parse_sdist_filename("foo-1.0.tar.gz").unwrap();
    assert_eq!(name, "foo");
    assert_eq!(ver, Version::parse("1.0").unwrap());

    let (name, ver) = parse_sdist_filename("Foo.Bar-2.0.1.zip").unwrap();
    assert_eq!(name, "foo-bar");
    assert_eq!(ver, Version::parse("2.0.1").unwrap());
}

#[test]
fn sdist_filename_rejects_bad_input() {
    assert!(parse_sdist_filename("foo-1.0.whl").is_err()); // wrong extension
    assert!(parse_sdist_filename("foo.tar.gz").is_err()); // no dash
    assert!(parse_sdist_filename("foo-bad!ver.tar.gz").is_err()); // bad version
}
