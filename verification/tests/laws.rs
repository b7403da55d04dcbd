//! Laws of the library on concrete values.

use std::collections::hash_map::DefaultHasher;
use std::collections::HashMap;
use std::hash::{Hash, Hasher};

use pyreq::{
    canonicalize_name, canonicalize_version, is_normalized_name, parse_sdist_filename, parse_tag,
    parse_wheel_filename, EnvValue, EvaluateContext, Marker, Requirement, Specifier, SpecifierSet,
    Tag, Version,
};

fn v(s: &str) -> Version {
    Version::parse(s).unwrap()
}

fn s(t: &str) -> Specifier {
    Specifier::parse(t).unwrap()
}

fn set(t: &str) -> SpecifierSet {
    SpecifierSet::parse(t).unwrap()
}

/// Versions in their order. Those in one row are equal.
const ROWS: &[&[&str]] = &[
    &["0.dev1"],
    &["0", "0.0", "0.0.0"],
    &["1.0.dev0", "1.dev"],
    &["1.0.dev1", "1-DEV_1"],
    &["1.0a0.dev1"],
    &["1.0a0", "1alpha", "1.0.0-a.0"],
    &["1.0a1"],
    &["1.0a1.post1"],
    &["1.0b2", "1.0_BETA_2"],
    &["1.0rc1", "1.0c1", "1.0preview1", "1.0.pre.1"],
    &["1.0", "v1", "1.0.0", "0!1"],
    &["1.0+abc"],
    &["1.0+abc.1", "1.0+ABC_1"],
    &["1.0+abc.2"],
    &["1.0+1"],
    &["1.0+1.0"],
    &["1.0.post0.dev2"],
    &["1.0.post0", "1.0-0", "1.0rev"],
    &["1.0.post1", "1.0-1", "1r1"],
    &["1.0.1"],
    &["1.10"],
    &["2"],
    &["1!0.1"],
];

#[test]
fn versions_are_in_a_total_order() {
    for (i, a) in ROWS.iter().enumerate() {
        for (j, b) in ROWS.iter().enumerate() {
            for x in a.iter() {
                for y in b.iter() {
                    let (x, y) = (v(x), v(y));
                    assert_eq!(x < y, i < j);
                    assert_eq!(x == y, i == j);
                    assert_eq!(x > y, i > j);
                    assert_eq!(x.key_text() == y.key_text(), i == j);
                    assert_eq!(x.partial_cmp(&y), Some(i.cmp(&j)));
                }
            }
        }
    }
}

#[test]
fn canonical_texts_are_read_back() {
    for row in ROWS {
        for t in row.iter() {
            let x = v(t);
            let again = v(&x.to_string());
            assert_eq!(again.to_string(), x.to_string());
            assert_eq!(again.release(), x.release());
            assert_eq!(v(&x.public()), x.without_local());
            assert!(v(&x.base_version()).same_base(&x));
            let parts = Version::from_parts(x.to_parts()).unwrap();
            assert_eq!(parts.to_string(), x.to_string());
        }
    }
}

#[test]
fn canonical_versions_stand_for_equal_ones() {
    for row in ROWS {
        for t in row.iter() {
            let c = canonicalize_version(t, true);
            assert_eq!(v(&c), v(t));
            assert_eq!(canonicalize_version(&c, true), c);
            assert_eq!(c, canonicalize_version(row[0], true));
        }
    }
    assert_eq!(canonicalize_version("0.0.0", true), "0");
}

#[test]
fn not_equal_is_the_negation_of_equal() {
    for row in ROWS {
        for t in row.iter() {
            for u in ["1.0", "1.0+abc", "1.0.*", "1!0.*", "0"] {
                let equal = s(&format!("=={}", u)).contains(t, Some(true));
                let other = s(&format!("!={}", u)).contains(t, Some(true));
                assert_eq!(equal, !other, "{} and {}", t, u);
            }
        }
    }
}

#[test]
fn bounds_meet_in_equality() {
    for row in ROWS {
        for t in row.iter() {
            for u in ["1.0", "1.0a1", "1.0.post1", "2"] {
                let most = s(&format!("<={}", u)).contains(t, Some(true));
                let least = s(&format!(">={}", u)).contains(t, Some(true));
                let equal = s(&format!("=={}", u)).contains(t, Some(true));
                let below = s(&format!("<{}", u)).contains(t, Some(true));
                let above = s(&format!(">{}", u)).contains(t, Some(true));
                assert!(most || least);
                assert_eq!(equal, most && least);
                assert!(!(below && equal) && !(above && equal) && !(below && above));
            }
        }
    }
}

#[test]
fn boundary_families_are_excluded() {
    assert!(!s("<1.0").contains("1.0.0rc1", Some(true)));
    assert!(!s("<1.0").contains("1.dev3", Some(true)));
    assert!(s("<1.0rc1").contains("1.0b1", Some(true)));
    assert!(!s(">1.0").contains("1.0.0.post1", Some(true)));
    assert!(s(">1.0.post1").contains("1.0.post2", Some(true)));
    assert!(!s(">1.0.post1").contains("1.0.post2+x", Some(true)));
}

#[test]
fn patterns_go_by_numbers() {
    for (pattern, version, expected) in [
        ("==1.0.*", "1", true),
        ("==1.0.*", "1.0.dev1", true),
        ("==1.0.*", "1.0.post3+abc", true),
        ("==1.0.*", "01.00.5", true),
        ("==1.0.*", "1.01", false),
        ("==1.0.*", "1!1.0", false),
        ("==1!1.*", "1!1.7", true),
        ("==1.0.0.*", "1", true),
        ("==1.0.1.*", "1", false),
        ("==10.*", "1.0", false),
        ("== v1.*", "1.5", true),
    ] {
        assert_eq!(s(pattern).contains(version, Some(true)), expected, "{} {}", pattern, version);
    }
}

#[test]
fn compatible_releases_go_by_numbers() {
    for (spec, version, expected) in [
        ("~=2.2", "2.2", true),
        ("~=2.2", "2.99", true),
        ("~=2.2", "2.2.dev1", false),
        ("~=2.2.0", "2.2.7", true),
        ("~=2.2.0", "2.3", false),
        ("~=2.2.post3", "2.2.post4", true),
        ("~=2.2.post3", "2.9", true),
        ("~=2.2.post3", "2.2", false),
        ("~=1.4.5a4", "1.4.5a5", true),
        ("~=1.4.5a4", "1.5", false),
        ("~=1!2.2", "1!2.5", true),
        ("~=1!2.2", "2.5", false),
        // A `v` in front stays in the pattern, which then matches nothing.
        ("~=v1.0", "1.5", false),
    ] {
        assert_eq!(s(spec).contains(version, Some(true)), expected, "{} {}", spec, version);
    }
}

#[test]
fn specifiers_are_read_back() {
    for t in ["==1.0", " >= 1.0 ", "~= 2.2", "!=1.0.*", "===foo bar", "=== x,y", "<2"] {
        if let Ok(a) = Specifier::parse(t) {
            let b = s(&a.to_string());
            assert_eq!(a, b);
            assert_eq!(a.operator(), b.operator());
            assert_eq!(a.version(), b.version());
        }
    }
    assert!(Specifier::parse("===foo bar").is_err());
    assert_eq!(s("===").version(), "");
}

#[test]
fn equal_specifiers_admit_the_same() {
    let (a, b) = (s("==1.0"), s("==v1.0.0"));
    assert_eq!(a, b);
    assert_eq!(a.key_text(), b.key_text());
    for row in ROWS {
        for t in row.iter() {
            assert_eq!(a.contains(t, Some(true)), b.contains(t, Some(true)));
        }
    }
    assert!(s("~=1.0") != s("~=1.0.0"));
    assert!(s("===1.0") != s("===1.0.0"));
}

#[test]
fn sets_are_written_in_order() {
    let a = set(">=1.0,!=1.5, <2 ,==1.*,>=1.0.0");
    let b = set("<2,==1.*,>=1.0.0,>=1.0,!=1.5,");
    assert_eq!(a.to_string(), "!=1.5,<2,==1.*,>=1.0");
    assert_eq!(a.to_string(), b.to_string());
    assert_eq!(a, b);
    assert_eq!(a.key_text(), b.key_text());
    assert_eq!(set(&a.to_string()), a);
    assert_eq!((a.len(), set(&a.to_string()).len()), (5, 4));
    assert!(set("") == set(" , ,"));
}

#[test]
fn sets_contain_what_all_contain() {
    let all = set(">=1.0,<2,!=1.0.1");
    for row in ROWS {
        for t in row.iter() {
            let each = all.specifiers().iter().all(|x| x.contains(t, Some(true)));
            assert_eq!(all.contains(t, Some(true)), each);
        }
    }
    // Pre-releases are left out unless they are admitted.
    assert!(!set(">=1.0").contains("2.0a1", None));
    assert!(set(">=1.0a1").contains("2.0a1", None));
    assert!(!set(">=1.0a1").with_prereleases(Some(false)).contains("2.0a1", None));
    assert!(set(">=1.0").with_prereleases(Some(true)).contains("2.0a1", None));
    assert_eq!(set("").prereleases(), None);
    assert_eq!(set(">=1.0").prereleases(), None);
    assert_eq!(set(">=1.0a1").prereleases(), Some(true));
}

#[test]
fn policies_of_specifiers() {
    assert_eq!(s(">=1.0").prereleases(), Some(false));
    assert_eq!(s(">=1.0a1").prereleases(), Some(true));
    assert_eq!(s("!=1.0a1").prereleases(), Some(false));
    assert_eq!(s("==1.0.*").prereleases(), Some(false));
    assert_eq!(s("===foo").prereleases(), None);
    assert_eq!(s("===1.0").with_prereleases(Some(true)).prereleases(), Some(true));
    assert!(s(">=1.0").with_prereleases(Some(true)).contains("2.0a1", None));
    assert!(!s(">=1.0").with_prereleases(Some(true)).contains("2.0a1", Some(false)));
}

#[test]
fn filters_keep_the_order() {
    let items = ["2.0a1", "foo", "1.0", "3.0", "2.0", "3.0b1"];
    assert_eq!(s(">=1.5").filter(&items, None), vec!["3.0", "2.0"]);
    assert_eq!(
        s(">=1.5").filter(&items, Some(true)),
        vec!["2.0a1", "3.0", "2.0", "3.0b1"]
    );
    assert_eq!(set("").filter(&items, None), vec!["1.0", "3.0", "2.0"]);
    assert_eq!(set("").filter(&["2.0a1", "foo"], None), vec!["2.0a1", "foo"]);
    assert_eq!(set("").filter(&["2.0a1", "foo"], Some(false)), vec!["foo"]);
    assert_eq!(s(">=1.0a1").filter(&["1.0a2", "1.0"], None), vec!["1.0a2", "1.0"]);
    let none: Vec<&str> = Vec::new();
    assert_eq!(set(">9").filter(&items, None), none);
}

#[test]
fn texts_before_the_first_final_release_are_held_back() {
    assert_eq!(set("").filter(&["foobar", "1.0"], None), vec!["1.0"]);
    assert_eq!(set("").filter(&["1.0", "foobar"], None), vec!["1.0", "foobar"]);
    assert_eq!(set("").filter(&["foo", "1.0a1", "1.0", "bar", "1.1b1"], None), vec!["1.0", "bar"]);
    assert_eq!(set("").filter(&["foo", "1.0a1", "bar"], None), vec!["foo", "1.0a1", "bar"]);
    assert_eq!(set("").filter(&["foo", "1.0a1", "1.0"], Some(true)), vec!["foo", "1.0a1", "1.0"]);
    assert_eq!(set("").filter(&["foo", "1.0a1", "1.0"], Some(false)), vec!["foo", "1.0"]);
}

fn hashed<T: Hash>(x: &T) -> u64 {
    let mut h = DefaultHasher::new();
    x.hash(&mut h);
    h.finish()
}

#[test]
fn sets_are_equal_by_their_canonical_members() {
    for (a, b) in [
        ("!=1.0,!=2.0", "!=v1.0,!=2.0"),
        ("!=1.0,!=2.0", "!=2.0.0, != 1"),
        (">=1.0,>=v1.0,<2", "<2.0,>=1"),
        ("===a,>=1.0", ">=1.0.0,===a"),
        ("", ","),
    ] {
        let (x, y) = (set(a), set(b));
        assert_eq!(x, y);
        assert_eq!(y, x);
        assert_eq!(x.key_text(), y.key_text());
        assert_eq!(hashed(&x), hashed(&y));
    }
    assert_eq!(set("!=v1.0,!=2.0").key_text(), "!=1,!=2");
    for (a, b) in [("!=1.0", "!=1.0,!=2.0"), ("!=1.0,!=2.0", "!=1.0"), ("===a", "===A"), (">=1", ">1")]
    {
        assert_ne!(set(a), set(b));
    }
}

#[test]
fn spellings_of_a_version() {
    for row in ROWS {
        for t in row.iter() {
            let x = v(t);
            let c = x.to_string();
            let up = c.to_ascii_uppercase();
            for u in [
                up.clone(),
                format!("v{}", c),
                format!("V{}", up),
                format!(" \t{}\n", c),
                format!("\u{a0}v{}\u{2003} ", up),
            ] {
                let y = v(&u);
                assert_eq!(y, x);
                assert_eq!(y.to_string(), c);
            }
            assert!(Version::parse(&format!("vv{}", c)).is_err());
            assert!(Version::parse(&format!("v {}", c)).is_err());
        }
    }
}

#[test]
fn markers_say_the_same_when_read_back() {
    let e = env(&[("os_name", "a"), ("sys_platform", "c")]);
    for (t, shown, holds) in [
        (
            "((os_name == 'a' or os_name == 'b')) and os_name == 'c'",
            "(os_name == \"a\" or os_name == \"b\") and os_name == \"c\"",
            false,
        ),
        (
            "sys_platform == 'c' and (((os_name == 'b' or ((os_name == 'a')))))",
            "sys_platform == \"c\" and (os_name == \"b\" or os_name == \"a\")",
            true,
        ),
        (
            "os_name == 'a' or os_name == 'b' and os_name == 'c'",
            "os_name == \"a\" or os_name == \"b\" and os_name == \"c\"",
            true,
        ),
        ("(((os_name == 'b')))", "os_name == \"b\"", false),
    ] {
        let m = Marker::parse(t).unwrap();
        assert_eq!(m.to_string(), shown);
        let again = Marker::parse(shown).unwrap();
        assert_eq!(again, m);
        assert_eq!(m.evaluate(&e), Ok(holds));
        assert_eq!(again.evaluate(&e), Ok(holds));
    }
}

#[test]
fn the_order_of_extras_does_not_matter() {
    let a = Requirement::parse("foo[a,b]").unwrap();
    let mut b = Requirement::parse("foo").unwrap();
    assert_ne!(a, b);
    b.extras = vec!["b".to_string(), "a".to_string(), "b".to_string()];
    assert_eq!(a, b);
    assert_eq!(b.to_string(), "foo[a,b]");
    assert_eq!(a.key_text(), b.key_text());
    assert_eq!(hashed(&a), hashed(&b));
    b.extras.push("c".to_string());
    assert_ne!(a, b);
}

#[test]
fn names_are_normalized_once() {
    for n in ["Foo", "a..b__c--d", "A-_.B", "x", "Foo.Bar-Baz_1"] {
        let c = canonicalize_name(n);
        assert_eq!(canonicalize_name(&c), c);
        assert!(!c.contains('_') && !c.contains('.') && !c.contains("--"));
        assert!(is_normalized_name(&c), "{}", c);
    }
    assert_eq!(canonicalize_name("Foo-Bar"), canonicalize_name("foo_bar"));
    assert_eq!(canonicalize_name(""), "");
}

#[test]
fn markers_are_read_back() {
    for t in [
        "os_name == 'a'",
        "os.name=='a'and(sys_platform=='b'or'c'in platform.machine)",
        "(((os_name == 'a')))",
        "python_implementation not  in 'x'",
        "extra == 'A_b' or extras == 'c' and (os_name < 'd' and (os_name > 'e' or 'f' >= os_name))",
        "os_name == 'a' and ((os_name == 'b' or os_name == 'c'))",
    ] {
        let m = Marker::parse(t).unwrap();
        let again = Marker::parse(&m.to_string()).unwrap();
        assert_eq!(again.to_string(), m.to_string());
        assert_eq!(again, m);
        assert_eq!(m.clone(), m);
    }
    // A text with a double quote in it is not read back.
    let m = Marker::parse("os_name == 'a\"b'").unwrap();
    assert_eq!(m.to_string(), "os_name == \"a\"b\"");
    assert!(Marker::parse(&m.to_string()).is_err());
}

fn env(pairs: &[(&str, &str)]) -> HashMap<String, String> {
    pairs.iter().map(|(k, v)| (k.to_string(), v.to_string())).collect()
}

#[test]
fn markers_join_comparisons() {
    let e = env(&[("os_name", "posix"), ("sys_platform", "linux")]);
    let t = "os_name == 'posix'";
    let f = "os_name == 'nt'";
    for a in [t, f] {
        for b in [t, f] {
            for c in [t, f] {
                let holds = |s: String| Marker::parse(&s).unwrap().evaluate(&e).unwrap();
                let (x, y, z) = (a == t, b == t, c == t);
                assert_eq!(holds(format!("{} or {}", a, b)), x || y);
                assert_eq!(holds(format!("{} and {}", a, b)), x && y);
                assert_eq!(holds(format!("{} or {} and {}", a, b, c)), x || (y && z));
                assert_eq!(holds(format!("{} and {} or {}", a, b, c)), (x && y) || z);
                assert_eq!(holds(format!("({} or {}) and {}", a, b, c)), (x || y) && z);
                assert_eq!(holds(format!("(({}))", a)), x);
            }
        }
    }
}

#[test]
fn extras_are_compared_as_names() {
    for given in ["Foo.Bar", "foo_bar", "FOO--BAR"] {
        let e = env(&[("extra", given)]);
        assert_eq!(Marker::parse("extra == 'foo.Bar'").unwrap().evaluate(&e), Ok(true));
        assert_eq!(Marker::parse("'FOO_bar' != extra").unwrap().evaluate(&e), Ok(false));
        assert_eq!(Marker::parse("extra == 'foo'").unwrap().evaluate(&e), Ok(false));
    }
}

#[test]
fn versions_in_environments_are_compared_as_versions() {
    let e = env(&[
        ("python_version", "3.10"),
        ("python_full_version", "3.10.1+"),
        ("platform_release", "5.10-generic"),
        ("implementation_version", "3.10.0rc1"),
    ]);
    let holds = |s: &str| Marker::parse(s).unwrap().evaluate(&e).unwrap();
    assert!(holds("python_version > '3.9'"));
    assert!(holds("'3.9' < python_version"));
    assert!(holds("python_version ~= '3.7'"));
    assert!(holds("python_full_version == '3.10.1+local'"));
    assert!(holds("implementation_version >= '3.10.0b1'"));
    // What is no version is compared as text, and no version is ever contained.
    assert!(!holds("platform_release > '5'"));
    assert!(!holds("platform_release > 'abc'"));
    assert!(holds("platform_release < 'abc'"));
    assert!(holds("'10' in python_version"));
}

#[test]
fn contexts_add_variables() {
    let none: HashMap<String, EnvValue> = HashMap::new();
    let holds = |s: &str, c: EvaluateContext| {
        Marker::parse(s).unwrap().evaluate_with_context(&none, c)
    };
    assert_eq!(holds("'x' in extras", EvaluateContext::LockFile), Ok(false));
    assert_eq!(holds("'x' not in dependency_groups", EvaluateContext::LockFile), Ok(true));
    assert_eq!(holds("extra == ''", EvaluateContext::Metadata), Ok(true));
    assert!(holds("'x' in extras", EvaluateContext::Metadata).is_err());
    assert!(holds("extra == ''", EvaluateContext::LockFile).is_err());
    assert!(holds("extra == ''", EvaluateContext::Requirement).is_err());
}

#[test]
fn requirements_are_read_back() {
    for (t, shown) in [
        ("foo", "foo"),
        (" Foo.Bar [ b , a,b ] ( >=1.0 , <2 ) ; os_name=='x' ", "Foo.Bar[a,b]<2,>=1.0; os_name == \"x\""),
        ("foo===1.0,>=2", "foo===1.0,>=2"),
        ("foo @ http://x/y;z ; extra == 'A.b'", "foo@ http://x/y;z ; extra == \"a-b\""),
        ("foo[]>=1.0", "foo>=1.0"),
        ("a@b", "a@ b"),
        ("foo_", "foo_"),
    ] {
        let q = Requirement::parse(t).unwrap();
        assert_eq!(q.to_string(), shown);
        let again = Requirement::parse(shown).unwrap();
        assert_eq!(again, q);
        assert_eq!(again.to_string(), shown);
        assert_eq!(q.clone(), q);
        assert_eq!(q.key_text(), again.key_text());
    }
    assert!(Requirement::parse("foo- ").is_err());
}

#[test]
fn tags_are_products() {
    let tags = parse_tag("py2.PY3.py3-none.abi3-any", false).unwrap();
    assert_eq!(tags.len(), 4);
    for i in ["py2", "py3"] {
        for a in ["none", "abi3"] {
            assert!(tags.contains(&Tag::new(i, a, "any")));
        }
    }
    for t in &tags {
        assert_eq!(parse_tag(&t.to_string(), true).unwrap(), vec![t.clone()]);
    }
    let t = Tag::new("CP39", "ABI3", "Linux");
    assert_eq!((t.interpreter(), t.abi(), t.platform()), ("cp39", "abi3", "linux"));
}

#[test]
fn file_names_say_names_and_versions() {
    for row in ROWS {
        let x = v(row[0]);
        for ext in [".zip", ".tar.gz"] {
            let (n, y) =
                parse_sdist_filename(&format!("Foo-Bar_baz-{}{}", x.to_string(), ext)).unwrap();
            assert_eq!(n, "foo-bar-baz");
            assert_eq!(y.to_string(), x.to_string());
        }
        let (n, y, build, tags) =
            parse_wheel_filename(&format!("Foo_Bar-{}-py3-none-any.whl", x.to_string()), true)
                .unwrap();
        assert_eq!(n, "foo-bar");
        assert_eq!(y.to_string(), x.to_string());
        assert_eq!(build, None);
        assert_eq!(tags, vec![Tag::new("py3", "none", "any")]);
    }
    let (_, _, build, _) = parse_wheel_filename("a-1-007x-py3-none-any.whl", false).unwrap();
    assert_eq!(build, Some((7, "x".to_string())));
}

#[test]
fn texts_and_values_that_are_texts_say_the_same() {
    let texts = env(&[("os_name", "posix"), ("extra", "A.b"), ("python_full_version", "3.9+")]);
    let values: HashMap<String, EnvValue> =
        texts.iter().map(|(k, v)| (k.clone(), EnvValue::Str(v.clone()))).collect();
    for t in [
        "os_name == 'posix'",
        "extra == 'a-b'",
        "python_full_version > '3.9'",
        "sys_platform == 'x'",
        "'x' in extras",
        "os_name ~= 'x'",
    ] {
        let m = Marker::parse(t).unwrap();
        assert_eq!(
            m.evaluate(&texts),
            m.evaluate_with_context(&values, EvaluateContext::Requirement)
        );
    }
}
