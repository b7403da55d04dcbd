use std::collections::HashSet;

use pyreq::{LocalSegment, PreLetter, Version, VersionParts};

fn segments(v: &Version) -> Option<Vec<LocalSegment>> {
    v.local_segments().map(|l| l.to_vec())
}

fn v(s: &str) -> Version {
    Version::parse(s).unwrap_or_else(|e| panic!("{}", e.to_string()))
}

#[test]
fn simple_release() {
    let ver = v("1.2.3");
    assert_eq!(ver.epoch(), 0);
    assert_eq!(ver.release(), vec![1, 2, 3]);
    assert_eq!(ver.pre(), None);
    assert_eq!(ver.post(), None);
    assert_eq!(ver.dev(), None);
    assert_eq!(ver.local_segments(), None);
}

#[test]
fn the_kitchen_sink() {
    let ver = v("1!2.3.4a5.post6.dev7+ubuntu.1");
    assert_eq!(ver.epoch(), 1);
    assert_eq!(ver.release(), vec![2, 3, 4]);
    assert_eq!(ver.pre(), Some((PreLetter::A, 5)));
    assert_eq!(ver.post(), Some(6));
    assert_eq!(ver.dev(), Some(7));
    assert_eq!(
        segments(&ver),
        Some(vec![
            LocalSegment::String("ubuntu".to_string()),
            LocalSegment::Number(1),
        ])
    );
}

#[test]
fn implicit_pre_number_is_zero() {
    assert_eq!(v("1.0a").pre(), Some((PreLetter::A, 0)));
}

#[test]
fn implicit_post_dash_form() {
    // "1.0-1" is a POST release (number, no letter), not a pre-release.
    let ver = v("1.0-1");
    assert_eq!(ver.pre(), None);
    assert_eq!(ver.post(), Some(1));
}

#[test]
fn implicit_post_number_is_zero() {
    assert_eq!(v("1.0.post").post(), Some(0));
}

#[test]
fn pre_letter_normalization() {
    assert_eq!(v("1.0C1").pre(), Some((PreLetter::Rc, 1)));
    assert_eq!(v("1.0preview2").pre(), Some((PreLetter::Rc, 2)));
    assert_eq!(v("1.0ALPHA").pre(), Some((PreLetter::A, 0)));
    assert_eq!(v("1.0beta3").pre(), Some((PreLetter::B, 3)));
}

#[test]
fn leading_v_and_surrounding_whitespace() {
    assert_eq!(v("v1.0").release(), vec![1, 0]);
    assert_eq!(v("  1.0  ").release(), vec![1, 0]);
}

#[test]
fn local_segments_mixed() {
    let ver = v("1.0+Foo.1.BAR-2");
    assert_eq!(
        segments(&ver),
        Some(vec![
            LocalSegment::String("foo".to_string()),
            LocalSegment::Number(1),
            LocalSegment::String("bar".to_string()),
            LocalSegment::Number(2),
        ])
    );
}

#[test]
fn invalid_versions_are_rejected() {
    for bad in ["foo", "1..2", ".1", "1.", "", "1.0+", "1.0.0bad"] {
        assert!(
            Version::parse(bad).is_err(),
            "expected {bad:?} to be invalid"
        );
    }
}

#[test]
fn equality_ignores_trailing_zeros() {
    assert_eq!(v("1.0.0"), v("1"));
    assert_eq!(v("1.0"), v("1"));
    assert_eq!(v("0.0.0"), v("0"));
    assert_eq!(v("1.0alpha1"), v("1.0a1")); // spelling normalization
    assert_ne!(v("1.0"), v("1.0+abc"));
}

#[test]
fn pre_post_dev_ordering() {
    assert!(v("1.0.dev1") < v("1.0a1")); // dev-only before alpha
    assert!(v("1.0a1") < v("1.0b1"));
    assert!(v("1.0b1") < v("1.0rc1"));
    assert!(v("1.0rc1") < v("1.0")); // pre-release before final
    assert!(v("1.0.dev1") < v("1.0")); // dev-only before final
    assert!(v("1.0") < v("1.0.post1")); // final before post
    assert!(v("1.0a1") < v("1.0a1.post1")); // post after no-post
    assert!(v("1.0.post1.dev1") < v("1.0.post1")); // dev before non-dev
    assert!(v("1.0.post1") < v("1.0.post2"));
}

#[test]
fn epoch_dominates() {
    assert!(v("2.0") < v("1!1.0"));
    assert!(v("1!1.0") < v("2!0.1"));
}

#[test]
fn local_ordering() {
    assert!(v("1.0") < v("1.0+abc")); // no-local before local
    assert!(v("1.0+abc") < v("1.0+1")); // strings sort before numbers
    assert!(v("1.0+abc.1") < v("1.0+abc.2"));
    assert!(v("1.0+1") < v("1.0+1.0")); // shorter prefix sorts first
}

#[test]
fn sorts_into_canonical_order() {
    let ascending = [
        "1.0.dev1", "1.0a1", "1.0a2", "1.0b1", "1.0rc1", "1.0", "1.0.post1", "1.1",
        "2.0", "1!1.0",
    ];
    for pair in ascending.windows(2) {
        assert!(v(pair[0]) < v(pair[1]), "{} should be < {}", pair[0], pair[1]);
    }
    // Sorting a scrambled copy reproduces the canonical order.
    let scrambled = [
        "1!1.0", "1.0a1", "2.0", "1.0", "1.0.dev1", "1.1", "1.0rc1", "1.0.post1",
        "1.0b1", "1.0a2",
    ];
    let mut versions: Vec<Version> = scrambled.iter().map(|s| v(s)).collect();
    versions.sort_by(|a, b| a.partial_cmp(b).unwrap());
    let expected: Vec<Version> = ascending.iter().map(|s| v(s)).collect();
    assert_eq!(versions, expected);
}

#[test]
fn equal_versions_hash_alike() {
    let mut set = HashSet::new();
    set.insert(v("1.0.0"));
    set.insert(v("1.0"));
    set.insert(v("1"));
    assert_eq!(set.len(), 1, "1.0.0, 1.0 and 1 are one version");
}

#[test]
fn display_roundtrips_canonical_strings() {
    // Already-canonical inputs render back unchanged.
    for s in [
        "1.2.3",
        "1.0.0", // trailing zeros are preserved by Display
        "1.0a5",
        "1.0rc1",
        "1!2.0",
        "1.0.post1",
        "1.0.dev1",
        "1.0+ubuntu.1",
        "2!1.0a1.post2.dev3+abc.4",
    ] {
        assert_eq!(v(s).to_string(), s, "{s} should round-trip");
    }
}

#[test]
fn display_normalizes() {
    let cases = [
        ("1.0ALPHA5", "1.0a5"),     // letter spelling + case
        ("1.0C", "1.0rc0"),         // c -> rc, implicit 0
        ("1.0preview", "1.0rc0"),   // preview -> rc
        ("1.0-1", "1.0.post1"),     // implicit dash post form
        ("v1.0", "1.0"),            // leading v dropped
        ("  1.0  ", "1.0"),         // whitespace trimmed
        ("1.0+Ubuntu_1-x", "1.0+ubuntu.1.x"), // local: lowercased, separators -> "."
    ];
    for (input, expected) in cases {
        assert_eq!(v(input).to_string(), expected, "{input} -> {expected}");
    }
}

#[test]
fn parse_display_is_idempotent() {
    // Re-parsing a rendered version yields an equal version with the same string.
    for s in ["1.0ALPHA5", "1.0-1", "v1!2.3.4.post5.dev6+FOO_1"] {
        let once = v(s);
        let twice = v(&once.to_string());
        assert_eq!(once, twice);
        assert_eq!(once.to_string(), twice.to_string());
    }
}

#[test]
fn accessors_full() {
    let ver = v("1!2.3.4a5.post6.dev7+ubuntu.1");
    assert_eq!(ver.epoch(), 1);
    assert_eq!(ver.release(), &[2u64, 3, 4]);
    assert_eq!(ver.pre(), Some((PreLetter::A, 5)));
    assert_eq!(ver.post(), Some(6));
    assert_eq!(ver.dev(), Some(7));
    assert_eq!(ver.local(), Some("ubuntu.1".to_string()));
    assert_eq!(ver.public(), "1!2.3.4a5.post6.dev7");
    assert_eq!(ver.base_version(), "1!2.3.4");
    assert!(ver.is_prerelease());
    assert!(ver.is_postrelease());
    assert!(ver.is_devrelease());
    assert_eq!((ver.major(), ver.minor(), ver.micro()), (2, 3, 4));
}

#[test]
fn accessors_defaults_and_flags() {
    let ver = v("1");
    assert_eq!(ver.local(), None);
    assert_eq!(ver.public(), "1");
    assert_eq!(ver.base_version(), "1");
    assert!(!ver.is_prerelease());
    assert!(!ver.is_postrelease());
    assert!(!ver.is_devrelease());
    assert_eq!((ver.major(), ver.minor(), ver.micro()), (1, 0, 0));
    // dev-only counts as a pre-release; post does not.
    assert!(v("1.0.dev1").is_prerelease());
    assert!(!v("1.0.post1").is_prerelease());
}

#[test]
fn release_trimmed_keeps_one() {
    assert_eq!(v("1.0.0").release_trimmed(), vec![1]);
    assert_eq!(v("0.0").release_trimmed(), vec![0]);
    assert_eq!(v("1.2.0").release_trimmed(), vec![1, 2]);
    assert_eq!(v("1.2.3").release_trimmed(), vec![1, 2, 3]);
}

#[test]
fn from_parts_builds_and_validates() {
    let simple = VersionParts {
        release: vec![1, 2, 3],
        ..Default::default()
    };
    assert_eq!(Version::from_parts(simple).unwrap(), v("1.2.3"));

    let full = VersionParts {
        epoch: 1,
        release: vec![2, 3, 4],
        pre: Some((PreLetter::A, 5)),
        post: Some(6),
        dev: Some(7),
        local: Some("ubuntu.1".to_string()),
    };
    assert_eq!(
        Version::from_parts(full).unwrap().to_string(),
        "1!2.3.4a5.post6.dev7+ubuntu.1"
    );

    // Empty release and malformed local are rejected.
    assert!(Version::from_parts(VersionParts::default()).is_err());
    let bad_local = VersionParts {
        release: vec![1],
        local: Some("bad!local".to_string()),
        ..Default::default()
    };
    assert!(Version::from_parts(bad_local).is_err());
}

#[test]
fn to_parts_roundtrips() {
    for s in ["1.2.3", "1!2.0a1.post3.dev4+abc.5", "1.0", "1.0.0"] {
        let ver = v(s);
        let rebuilt = Version::from_parts(ver.to_parts()).unwrap();
        assert_eq!(ver, rebuilt);
        assert_eq!(ver.to_string(), rebuilt.to_string());
    }
}
