//! The library as a caller uses it.

use std::collections::HashMap;

use pyreq::{
    canonicalize_name, parse, parse_wheel_filename, Marker, Requirement, Specifier, SpecifierSet,
    Version,
};

#[test]
fn versions_from_strings() {
    let v: Version = "1!2.3.4rc1.post2".parse().unwrap();
    assert_eq!(v.release(), &[2, 3, 4]);
    assert!(v.is_prerelease());
    assert!("1.0rc1".parse::<Version>().unwrap() < "1.0".parse().unwrap());
    assert_eq!("1.0".parse::<Version>().unwrap(), "1.0.0".parse().unwrap());
    assert_eq!(parse("1.0").unwrap(), v_one());
    assert!("x".parse::<Version>().is_err());
}

fn v_one() -> Version {
    parse("1").unwrap()
}

#[test]
fn specifiers_from_strings() {
    let specs: SpecifierSet = ">=1.0,<2.0".parse().unwrap();
    assert!(specs.contains("1.5", None));
    assert!(!specs.contains("2.0", None));
    let spec: Specifier = "~=1.4".parse().unwrap();
    assert!(spec.contains("1.5", None));
    assert!("1.4".parse::<Specifier>().is_err());
}

#[test]
fn requirements_from_strings() {
    let req: Requirement =
        "requests[security]>=2.0; python_version<\"3.9\"".parse().unwrap();
    assert_eq!(req.name, "requests");
    assert!(req.marker.is_some());
}

#[test]
fn markers_from_strings() {
    let marker: Marker = "python_version >= \"3.8\"".parse().unwrap();
    let env = HashMap::from([("python_version".to_string(), "3.11".to_string())]);
    assert_eq!(marker.evaluate(&env), Ok(true));
}

#[test]
fn names_and_file_names() {
    assert_eq!(canonicalize_name("Foo.Bar"), "foo-bar");
    let (name, version, build, tags) =
        parse_wheel_filename("requests-2.31.0-py3-none-any.whl", false).unwrap();
    assert_eq!(name, "requests");
    assert_eq!(version.to_string(), "2.31.0");
    assert!(build.is_none());
    assert_eq!(tags.len(), 1);
}
